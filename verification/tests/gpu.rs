//! Counter-instance parsing and adapter memory summaries.
use process_optimizer::gpu::{dedicated_allocations, parse_instance};
use process_optimizer::model::GpuReading;

#[test]
fn parses_adapter_and_engine() {
    let x = parse_instance("pid_42_luid_0x00000000_0x000012AB_phys_0_eng_2_engtype_VideoDecode").unwrap();
    assert_eq!(x.pid, 42);
    assert_eq!(x.adapter, "0x00000000:0x000012AB/phys0");
    assert_eq!(x.engine.unwrap(), "2/VideoDecode");
}

#[test]
fn invalid_instances_are_ignored() {
    for s in ["_Total", "pid_x_luid_0x00_0x12", "pid_42_luid_foo_bar", "pid_2"] {
        assert!(parse_instance(s).is_none());
    }
}

#[test]
fn memory_not_double_counted_across_engines() {
    let r = GpuReading { adapter: "a".into(), dedicated_bytes: Some(100), ..Default::default() };
    assert_eq!(dedicated_allocations(&[r.clone(), r]), Some(100));
    assert_eq!(dedicated_allocations(&[]), None);
}

#[test]
fn multi_adapter_memory_does_not_become_an_unlabeled_total() {
    let a = GpuReading { adapter: "a".into(), dedicated_bytes: Some(100), ..Default::default() };
    let b = GpuReading { adapter: "b".into(), dedicated_bytes: Some(200), ..Default::default() };
    assert_eq!(dedicated_allocations(&[a, b]), None);
}

#[test]
fn instance_without_engine_or_physical_index() {
    let x = parse_instance("pid_7_luid_0x1_0xFF").unwrap();
    assert_eq!(x.pid, 7);
    assert_eq!(x.adapter, "0x1:0xFF/physunknown");
    assert!(x.engine.is_none());
    let y = parse_instance("pid_+7_luid_0x1_0x2_eng_0_engtype_3D_extra").unwrap();
    assert_eq!(y.pid, 7);
    assert_eq!(y.engine.unwrap(), "0/3D_extra");
    assert!(parse_instance("pid_4294967296_luid_0x1_0x2").is_none());
    assert!(parse_instance("pid_1_luid_0x1_0x100000000").is_none());
}

#[test]
fn latest_figure_of_one_adapter_is_reported() {
    let a = GpuReading { adapter: "a".into(), dedicated_bytes: Some(100), ..Default::default() };
    let b = GpuReading { adapter: "a".into(), dedicated_bytes: Some(300), ..Default::default() };
    let c = GpuReading { adapter: "b".into(), dedicated_bytes: None, ..Default::default() };
    assert_eq!(dedicated_allocations(&[a, c, b]), Some(300));
}
