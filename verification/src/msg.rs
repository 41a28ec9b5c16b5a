//! Messages from the control plane to the forwarding threads.

use vstd::prelude::*;
use crate::graph::GnodeCntrs;

verus! {

/// What a message asks of the forwarding thread that receives it.
#[derive(Debug, PartialEq, Eq)]
pub enum Ctrl {
    /// Watch this descriptor for input.
    EpollAdd(i32),
    /// Hand these bytes to the node of this name: an instruction that only
    /// the node knows how to read.
    Node(String, Vec<u8>),
}

/// What a `Ctrl` says.
pub enum CtrlView {
    EpollAdd(i32),
    Node(Seq<char>, Seq<u8>),
}

impl View for Ctrl {
    type V = CtrlView;

    open spec fn view(&self) -> CtrlView {
        match self {
            Ctrl::EpollAdd(fd) => CtrlView::EpollAdd(*fd),
            Ctrl::Node(node, data) => CtrlView::Node(node@, data@),
        }
    }
}

/// The things of one forwarding thread that a message is bound to: the
/// thread's logger, by name, and counters that nothing else shares.
#[derive(Debug, PartialEq, Eq)]
pub struct Binding {
    pub thread: usize,
    pub logger: String,
    pub cntrs: GnodeCntrs,
}

/// What a `Binding` says.
pub struct BindingView {
    pub thread: usize,
    pub logger: Seq<char>,
    pub cntrs: GnodeCntrs,
}

impl View for Binding {
    type V = BindingView;

    open spec fn view(&self) -> BindingView {
        BindingView { thread: self.thread, logger: self.logger@, cntrs: self.cntrs }
    }
}

/// A message from the control plane to a forwarding thread.
#[derive(Debug, PartialEq, Eq)]
pub struct R2Msg {
    pub ctrl: Ctrl,
    pub bound: Binding,
}

/// What an `R2Msg` says.
pub struct R2MsgView {
    pub ctrl: CtrlView,
    pub bound: BindingView,
}

impl View for R2Msg {
    type V = R2MsgView;

    open spec fn view(&self) -> R2MsgView {
        R2MsgView { ctrl: self.ctrl@, bound: self.bound@ }
    }
}

/// A copy of `bytes`.
pub fn copy_bytes(bytes: &Vec<u8>) -> (copy: Vec<u8>)
    ensures
        copy@ == bytes@,
{
    let mut copy: Vec<u8> = Vec::new();
    let mut i: usize = 0;
    while i < bytes.len()
        invariant
            i <= bytes@.len(),
            copy@ == bytes@.take(i as int),
        decreases bytes@.len() - i,
    {
        copy.push(bytes[i]);
        assert(copy@ =~= bytes@.take(i + 1));
        i = i + 1;
    }
    assert(bytes@.take(bytes@.len() as int) =~= bytes@);
    copy
}

impl R2Msg {
    /// The message as one thread gets it: it asks the same, and is bound to
    /// the logger `logger` of the thread `thread` and to counters of its
    /// own that have counted nothing.
    pub open spec fn spec_clone(msg: R2MsgView, thread: usize, logger: Seq<char>) -> R2MsgView {
        R2MsgView {
            ctrl: msg.ctrl,
            bound: BindingView {
                thread,
                logger,
                cntrs: GnodeCntrs { dispatched: 0, forwarded: 0, dropped: 0 },
            },
        }
    }

    /// A message that asks `ctrl`, bound to the logger `logger` of the
    /// thread `thread` and to counters that have counted nothing.
    pub fn new(ctrl: Ctrl, thread: usize, logger: &str) -> (msg: R2Msg)
        ensures
            msg.ctrl == ctrl,
            msg@.bound == (BindingView {
                thread,
                logger: logger@,
                cntrs: GnodeCntrs { dispatched: 0, forwarded: 0, dropped: 0 },
            }),
    {
        R2Msg {
            ctrl,
            bound: Binding { thread, logger: String::from_str(logger), cntrs: GnodeCntrs::new() },
        }
    }

    /// An instance of the message for the thread `thread`: it asks the
    /// same, and shares nothing with this one.
    pub fn clone(&self, thread: usize, logger: &str) -> (msg: R2Msg)
        ensures
            msg@ == Self::spec_clone(self@, thread, logger@),
    {
        let ctrl = match &self.ctrl {
            Ctrl::EpollAdd(fd) => Ctrl::EpollAdd(*fd),
            Ctrl::Node(node, data) => Ctrl::Node(node.clone(), copy_bytes(data)),
        };
        R2Msg {
            ctrl,
            bound: Binding { thread, logger: String::from_str(logger), cntrs: GnodeCntrs::new() },
        }
    }
}

} // verus!
