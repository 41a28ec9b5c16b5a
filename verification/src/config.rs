//! The startup configuration: a text of sections and `key = value` lines,
//! of which the section `dpdk` says whether the polling backend is used.

use vstd::prelude::*;
use vstd::string::*;
use ini::Ini;
use crate::text::{parse_bool, parse_usize, spec_parse_bool, spec_parse_usize, str_eq};

verus! {

/// How the polling backend is set up.
#[derive(Clone, Copy, Debug, PartialEq, Eq)]
pub struct DpdkCfg {
    /// Whether the polling backend is used.
    pub on: bool,
    /// The pinned memory it takes, in megabytes.
    pub mem: usize,
    /// The number of cores it claims.
    pub ncores: usize,
}

/// One line of a configuration, in the order of the text: the header of a
/// section, or a key and its value. The section without a name is the one
/// before any header.
#[derive(Debug, PartialEq, Eq)]
pub enum Item {
    Section(Option<String>),
    Property(String, String),
}

/// What an `Item` says.
pub enum ItemView {
    Section(Option<Seq<char>>),
    Property(Seq<char>, Seq<char>),
}

impl View for Item {
    type V = ItemView;

    open spec fn view(&self) -> ItemView {
        match self {
            Item::Section(None) => ItemView::Section(None),
            Item::Section(Some(name)) => ItemView::Section(Some(name@)),
            Item::Property(key, value) => ItemView::Property(key@, value@),
        }
    }
}

/// What each of `items` says.
pub open spec fn item_views(items: Seq<Item>) -> Seq<ItemView> {
    Seq::new(items.len(), |i: int| items[i]@)
}

/// Why a configuration is refused.
#[derive(Debug, PartialEq, Eq)]
pub enum CfgError {
    /// A key stands before any section header.
    NoSection(String),
    /// A section that is not known; it is refused even when it is empty.
    UnknownSection(String),
    /// A key of the section `dpdk` that is not known.
    UnknownKey(String),
    /// A key of the section `dpdk`, with a value that cannot be read.
    BadValue(String, String),
}

/// What a `CfgError` says.
pub enum CfgErrorView {
    NoSection(Seq<char>),
    UnknownSection(Seq<char>),
    UnknownKey(Seq<char>),
    BadValue(Seq<char>, Seq<char>),
}

impl View for CfgError {
    type V = CfgErrorView;

    open spec fn view(&self) -> CfgErrorView {
        match self {
            CfgError::NoSection(key) => CfgErrorView::NoSection(key@),
            CfgError::UnknownSection(name) => CfgErrorView::UnknownSection(name@),
            CfgError::UnknownKey(key) => CfgErrorView::UnknownKey(key@),
            CfgError::BadValue(key, value) => CfgErrorView::BadValue(key@, value@),
        }
    }
}

/// What a result of a configuration step says.
pub open spec fn outcome(r: Result<DpdkCfg, CfgError>) -> Result<DpdkCfg, CfgErrorView> {
    match r {
        Ok(cfg) => Ok(cfg),
        Err(e) => Err(e@),
    }
}

/// The setup after `key = value` of the section `dpdk`: `on` takes a truth
/// value, `mem` and `ncores` a number; there is no other key.
pub open spec fn set_result(cfg: DpdkCfg, key: Seq<char>, value: Seq<char>) -> Result<
    DpdkCfg,
    CfgErrorView,
> {
    if key == "on"@ {
        match spec_parse_bool(value) {
            Some(on) => Ok(DpdkCfg { on, ..cfg }),
            None => Err(CfgErrorView::BadValue(key, value)),
        }
    } else if key == "mem"@ {
        match spec_parse_usize(value) {
            Some(mem) => Ok(DpdkCfg { mem, ..cfg }),
            None => Err(CfgErrorView::BadValue(key, value)),
        }
    } else if key == "ncores"@ {
        match spec_parse_usize(value) {
            Some(ncores) => Ok(DpdkCfg { ncores, ..cfg }),
            None => Err(CfgErrorView::BadValue(key, value)),
        }
    } else {
        Err(CfgErrorView::UnknownKey(key))
    }
}

/// The setup after all of `items`, or the first thing that is wrong with
/// them. `in_dpdk` says whether the header of `dpdk` was the last one
/// before them. The only section known is `dpdk`.
pub open spec fn apply_result(cfg: DpdkCfg, in_dpdk: bool, items: Seq<ItemView>) -> Result<
    DpdkCfg,
    CfgErrorView,
>
    decreases items.len(),
{
    if items.len() == 0 {
        Ok(cfg)
    } else {
        match items[0] {
            ItemView::Section(None) => apply_result(cfg, false, items.skip(1)),
            ItemView::Section(Some(name)) => if name == "dpdk"@ {
                apply_result(cfg, true, items.skip(1))
            } else {
                Err(CfgErrorView::UnknownSection(name))
            },
            ItemView::Property(key, value) => if !in_dpdk {
                Err(CfgErrorView::NoSection(key))
            } else {
                match set_result(cfg, key, value) {
                    Ok(next) => apply_result(next, true, items.skip(1)),
                    Err(e) => Err(e),
                }
            },
        }
    }
}

/// The items that a configuration text holds, in its order, each section
/// header followed by the keys of that section; nothing for a text that is
/// no configuration.
pub uninterp spec fn ini_items(text: Seq<char>) -> Option<Seq<ItemView>>;

/// `Ini::load_from_str`, and what `Ini::iter` and `Properties::iter` then
/// hand out: the sections in the order of the text, the one without a name
/// first, and under each its keys and values.
#[verifier::external_body]
fn ini_load(text: &str) -> (r: Option<Vec<Item>>)
    ensures
        match r {
            Some(items) => ini_items(text@) == Some(item_views(items@)),
            None => ini_items(text@).is_none(),
        },
{
    let ini = Ini::load_from_str(text).ok()?;
    let mut items = Vec::new();
    for (section, props) in ini.iter() {
        items.push(Item::Section(section.map(String::from)));
        for (key, value) in props.iter() {
            items.push(Item::Property(String::from(key), String::from(value)));
        }
    }
    Some(items)
}

impl CfgError {
    /// What is wrong, in words.
    pub open spec fn spec_message(e: CfgErrorView) -> Seq<char> {
        match e {
            CfgErrorView::NoSection(key) => "Config outside of a section "@ + key,
            CfgErrorView::UnknownSection(name) => "Unknown config "@ + name,
            CfgErrorView::UnknownKey(key) => "Unknown dpdk config "@ + key,
            CfgErrorView::BadValue(key, value) => "Bad dpdk config "@ + key + "="@ + value,
        }
    }

    /// What is wrong, in words.
    pub fn message(&self) -> (text: String)
        ensures
            text@ == Self::spec_message(self@),
    {
        match self {
            CfgError::NoSection(key) => {
                let mut text = String::from_str("Config outside of a section ");
                text.append(key.as_str());
                text
            },
            CfgError::UnknownSection(name) => {
                let mut text = String::from_str("Unknown config ");
                text.append(name.as_str());
                text
            },
            CfgError::UnknownKey(key) => {
                let mut text = String::from_str("Unknown dpdk config ");
                text.append(key.as_str());
                text
            },
            CfgError::BadValue(key, value) => {
                let mut text = String::from_str("Bad dpdk config ");
                text.append(key.as_str());
                text.append("=");
                text.append(value.as_str());
                text
            },
        }
    }
}

impl DpdkCfg {
    /// The setup without a configuration: the polling backend is off.
    pub fn new() -> (cfg: DpdkCfg)
        ensures
            cfg == (DpdkCfg { on: false, mem: 0, ncores: 0 }),
    {
        DpdkCfg { on: false, mem: 0, ncores: 0 }
    }

    /// The setup after `key = value` of the section `dpdk`.
    pub fn set(self, key: &str, value: &str) -> (r: Result<DpdkCfg, CfgError>)
        ensures
            outcome(r) == set_result(self, key@, value@),
    {
        if str_eq(key, "on") {
            match parse_bool(value) {
                Some(on) => Ok(DpdkCfg { on, mem: self.mem, ncores: self.ncores }),
                None => Err(CfgError::BadValue(String::from_str(key), String::from_str(value))),
            }
        } else if str_eq(key, "mem") {
            match parse_usize(value) {
                Some(mem) => Ok(DpdkCfg { on: self.on, mem, ncores: self.ncores }),
                None => Err(CfgError::BadValue(String::from_str(key), String::from_str(value))),
            }
        } else if str_eq(key, "ncores") {
            match parse_usize(value) {
                Some(ncores) => Ok(DpdkCfg { on: self.on, mem: self.mem, ncores }),
                None => Err(CfgError::BadValue(String::from_str(key), String::from_str(value))),
            }
        } else {
            Err(CfgError::UnknownKey(String::from_str(key)))
        }
    }
}

/// The setup after all of `items`, or the first thing that is wrong with
/// them.
pub fn apply_items(cfg: DpdkCfg, items: &Vec<Item>) -> (r: Result<DpdkCfg, CfgError>)
    ensures
        outcome(r) == apply_result(cfg, false, item_views(items@)),
{
    let ghost all = item_views(items@);
    let mut cur = cfg;
    let mut in_dpdk = false;
    let mut i: usize = 0;
    assert(all.skip(0) =~= all);
    while i < items.len()
        invariant
            i <= items@.len(),
            all == item_views(items@),
            apply_result(cfg, false, all) == apply_result(cur, in_dpdk, all.skip(i as int)),
        decreases items@.len() - i,
    {
        let ghost rest = all.skip(i as int);
        assert(rest[0] == items@[i as int]@);
        assert(rest.skip(1) =~= all.skip(i + 1));
        match &items[i] {
            Item::Section(None) => {
                in_dpdk = false;
            },
            Item::Section(Some(name)) => {
                if str_eq(name.as_str(), "dpdk") {
                    in_dpdk = true;
                } else {
                    return Err(CfgError::UnknownSection(name.clone()));
                }
            },
            Item::Property(key, value) => {
                if !in_dpdk {
                    return Err(CfgError::NoSection(key.clone()));
                }
                match cur.set(key.as_str(), value.as_str()) {
                    Ok(next) => {
                        cur = next;
                    },
                    Err(e) => {
                        return Err(e);
                    },
                }
            },
        }
        i = i + 1;
    }
    Ok(cur)
}

/// Reads the configuration `text` into `cfg`. A text that is no
/// configuration at all is passed over, and the setup stays as it is. A
/// configuration with an unknown section or key, a key before any section,
/// or a value that cannot be read is refused, and the setup stays as it
/// is too.
pub fn parse_cfg(cfg: &mut DpdkCfg, text: &str) -> (r: Result<(), CfgError>)
    ensures
        match ini_items(text@) {
            None => r.is_ok() && *final(cfg) == *old(cfg),
            Some(items) => match apply_result(*old(cfg), false, items) {
                Ok(next) => r.is_ok() && *final(cfg) == next,
                Err(e) => r.is_err() && r.unwrap_err()@ == e && *final(cfg) == *old(cfg),
            },
        },
{
    match ini_load(text) {
        None => Ok(()),
        Some(items) => {
            match apply_items(*cfg, &items) {
                Ok(next) => {
                    *cfg = next;
                    Ok(())
                },
                Err(e) => Err(e),
            }
        },
    }
}

/// Where the configuration is read from when no other place is given.
pub open spec fn spec_cfg_file() -> Seq<char> {
    "/etc/r2.cfg"@
}

/// The file that the configuration is read from: the one given, or
/// `/etc/r2.cfg`.
pub fn cfg_file(given: Option<&str>) -> (path: String)
    ensures
        path@ == match given {
            Some(p) => p@,
            None => spec_cfg_file(),
        },
{
    match given {
        Some(p) => String::from_str(p),
        None => String::from_str("/etc/r2.cfg"),
    }
}

} // verus!
