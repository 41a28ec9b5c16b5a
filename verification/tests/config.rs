use r2::config::{apply_items, cfg_file, parse_cfg, CfgError, DpdkCfg, Item};

fn off() -> DpdkCfg {
    DpdkCfg { on: false, mem: 0, ncores: 0 }
}

fn section(name: &str) -> Item {
    Item::Section(Some(name.to_string()))
}

fn prop(key: &str, value: &str) -> Item {
    Item::Property(key.to_string(), value.to_string())
}

#[test]
fn dpdk_section_is_read() {
    let mut cfg = DpdkCfg::new();
    assert_eq!(cfg, off());
    assert_eq!(parse_cfg(&mut cfg, "[dpdk]\non=true\nmem=128\nncores=2\n"), Ok(()));
    assert_eq!(cfg, DpdkCfg { on: true, mem: 128, ncores: 2 });
}

#[test]
fn later_lines_win() {
    let mut cfg = DpdkCfg::new();
    let text = "; a comment\n[dpdk]\nmem = 64\non = false\n\n[dpdk]\nmem = +256\non = true\n";
    assert_eq!(parse_cfg(&mut cfg, text), Ok(()));
    assert_eq!(cfg, DpdkCfg { on: true, mem: 256, ncores: 0 });
}

#[test]
fn keys_that_are_not_named_keep_their_value() {
    let mut cfg = DpdkCfg { on: true, mem: 7, ncores: 3 };
    assert_eq!(parse_cfg(&mut cfg, "[dpdk]\nncores=4\n"), Ok(()));
    assert_eq!(cfg, DpdkCfg { on: true, mem: 7, ncores: 4 });
    assert_eq!(parse_cfg(&mut cfg, ""), Ok(()));
    assert_eq!(cfg, DpdkCfg { on: true, mem: 7, ncores: 4 });
    assert_eq!(parse_cfg(&mut cfg, "[dpdk]\n"), Ok(()));
    assert_eq!(cfg, DpdkCfg { on: true, mem: 7, ncores: 4 });
}

#[test]
fn unknown_section_is_refused() {
    let mut cfg = DpdkCfg::new();
    assert_eq!(
        parse_cfg(&mut cfg, "[dpdk]\non=true\n[ipv4]\nttl=64\n"),
        Err(CfgError::UnknownSection("ipv4".to_string()))
    );
    assert_eq!(cfg, off());
}

#[test]
fn unknown_section_is_refused_even_when_empty() {
    let mut cfg = DpdkCfg::new();
    assert_eq!(
        parse_cfg(&mut cfg, "[other]\n"),
        Err(CfgError::UnknownSection("other".to_string()))
    );
    assert_eq!(
        parse_cfg(&mut cfg, "[DPDK]\n"),
        Err(CfgError::UnknownSection("DPDK".to_string()))
    );
}

#[test]
fn unknown_key_is_refused() {
    let mut cfg = DpdkCfg::new();
    assert_eq!(
        parse_cfg(&mut cfg, "[dpdk]\non=true\nqueues=4\nmem=1\n"),
        Err(CfgError::UnknownKey("queues".to_string()))
    );
    assert_eq!(cfg, off());
}

#[test]
fn value_that_cannot_be_read_is_refused() {
    let mut cfg = DpdkCfg::new();
    assert_eq!(
        parse_cfg(&mut cfg, "[dpdk]\non=yes\n"),
        Err(CfgError::BadValue("on".to_string(), "yes".to_string()))
    );
    assert_eq!(
        parse_cfg(&mut cfg, "[dpdk]\nmem=-1\n"),
        Err(CfgError::BadValue("mem".to_string(), "-1".to_string()))
    );
    assert_eq!(
        parse_cfg(&mut cfg, "[dpdk]\nmem=12\nncores=\n"),
        Err(CfgError::BadValue("ncores".to_string(), "".to_string()))
    );
    assert_eq!(
        parse_cfg(&mut cfg, "[dpdk]\nncores=99999999999999999999999\n"),
        Err(CfgError::BadValue("ncores".to_string(), "99999999999999999999999".to_string()))
    );
    assert_eq!(cfg, off());
}

#[test]
fn key_before_any_section_is_refused() {
    let mut cfg = DpdkCfg::new();
    assert_eq!(
        parse_cfg(&mut cfg, "on=true\n[dpdk]\nmem=1\n"),
        Err(CfgError::NoSection("on".to_string()))
    );
    assert_eq!(cfg, off());
}

#[test]
fn text_that_is_no_configuration_is_passed_over() {
    let mut cfg = DpdkCfg { on: false, mem: 5, ncores: 0 };
    assert_eq!(parse_cfg(&mut cfg, "[dpdk"), Ok(()));
    assert_eq!(cfg, DpdkCfg { on: false, mem: 5, ncores: 0 });
    assert_eq!(parse_cfg(&mut cfg, "[dpdk]\non=true\n=3\n"), Ok(()));
    assert_eq!(cfg, DpdkCfg { on: false, mem: 5, ncores: 0 });
}

#[test]
fn items_are_applied_in_order() {
    let items = vec![
        Item::Section(None),
        section("dpdk"),
        prop("mem", "1"),
        prop("mem", "2"),
        prop("on", "true"),
        section("dpdk"),
        prop("ncores", "8"),
    ];
    assert_eq!(apply_items(off(), &items), Ok(DpdkCfg { on: true, mem: 2, ncores: 8 }));
    assert_eq!(apply_items(off(), &vec![]), Ok(off()));
    assert_eq!(apply_items(off(), &vec![Item::Section(None)]), Ok(off()));
}

#[test]
fn the_first_wrong_item_is_reported() {
    let items = vec![section("dpdk"), prop("mem", "x"), section("nope"), prop("zz", "1")];
    assert_eq!(
        apply_items(off(), &items),
        Err(CfgError::BadValue("mem".to_string(), "x".to_string()))
    );
    let items = vec![section("dpdk"), Item::Section(None), prop("mem", "1")];
    assert_eq!(apply_items(off(), &items), Err(CfgError::NoSection("mem".to_string())));
    let items = vec![prop("mem", "1")];
    assert_eq!(apply_items(off(), &items), Err(CfgError::NoSection("mem".to_string())));
    let items = vec![section("dpdk"), prop("On", "true")];
    assert_eq!(apply_items(off(), &items), Err(CfgError::UnknownKey("On".to_string())));
}

#[test]
fn set_takes_one_key() {
    assert_eq!(off().set("on", "true"), Ok(DpdkCfg { on: true, mem: 0, ncores: 0 }));
    assert_eq!(off().set("mem", "512"), Ok(DpdkCfg { on: false, mem: 512, ncores: 0 }));
    assert_eq!(off().set("ncores", "3"), Ok(DpdkCfg { on: false, mem: 0, ncores: 3 }));
    assert_eq!(off().set("cores", "3"), Err(CfgError::UnknownKey("cores".to_string())));
    assert_eq!(
        off().set("on", "1"),
        Err(CfgError::BadValue("on".to_string(), "1".to_string()))
    );
}

#[test]
fn errors_say_what_is_wrong() {
    assert_eq!(CfgError::UnknownSection("ipv4".to_string()).message(), "Unknown config ipv4");
    assert_eq!(CfgError::UnknownKey("queues".to_string()).message(), "Unknown dpdk config queues");
    assert_eq!(
        CfgError::NoSection("on".to_string()).message(),
        "Config outside of a section on"
    );
    assert_eq!(
        CfgError::BadValue("mem".to_string(), "-1".to_string()).message(),
        "Bad dpdk config mem=-1"
    );
}

#[test]
fn configuration_file() {
    assert_eq!(cfg_file(None), "/etc/r2.cfg");
    assert_eq!(cfg_file(Some("/tmp/my.cfg")), "/tmp/my.cfg");
    assert_eq!(cfg_file(Some("")), "");
}
