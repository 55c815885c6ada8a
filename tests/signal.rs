use eggmock::{id_parameters, parameters, signal_parameters, Gate, Id, Signal};

#[test]
fn new_packs_id_and_flag() {
    let s = Signal::new(Id(5), true);
    assert_eq!(s.node_id(), Id(5));
    assert!(s.is_inverted());
    assert_eq!(s.0, 0x8000_0005);
    let t = Signal::new(Id(5), false);
    assert!(!t.is_inverted());
    assert_eq!(t.0, 5);
}

#[test]
fn double_inversion_is_identity() {
    for raw in [0u32, 1, 7, 0x7fff_ffff, 0x8000_0000, 0x8000_0003, u32::MAX] {
        let s = Signal(raw);
        assert_eq!(s.invert().invert(), s);
        assert_ne!(s.invert(), s);
    }
}

#[test]
fn replace_id_xors_inversion() {
    let cases = [(false, false, false), (false, true, true), (true, false, true), (true, true, false)];
    for (a, b, expected) in cases {
        let s = Signal::new(Id(3), a);
        let t = Signal::new(Id(9), b);
        let r = s.replace_id(t);
        assert_eq!(r.node_id(), Id(9));
        assert_eq!(r.is_inverted(), expected);
    }
}

#[test]
fn maybe_invert_only_flips_when_asked() {
    let s = Signal::new(Id(12), false);
    assert_eq!(s.maybe_invert(false), s);
    assert_eq!(s.maybe_invert(true), Signal::new(Id(12), true));
}

#[test]
fn map_id_composes_with_mapped_signal() {
    let s = Signal::new(Id(2), true);
    let r = s.map_id(|id| Signal::new(Id(id.0 + 10), true));
    assert_eq!(r, Signal::new(Id(12), false));
}

#[test]
fn id_converts_to_and_from_u32() {
    let id = Id::from(42u32);
    assert_eq!(id, Id(42));
    let raw: u32 = id.into();
    assert_eq!(raw, 42);
}

#[test]
fn largest_id_fits_below_the_inversion_bit() {
    let s = Signal::new(Id(0x7fff_ffff), false);
    assert_eq!(s.node_id(), Id(0x7fff_ffff));
    assert!(!s.is_inverted());
    assert!(s.invert().is_inverted());
    assert_eq!(s.invert().node_id(), Id(0x7fff_ffff));
}

#[test]
fn parameter_lists() {
    assert_eq!(signal_parameters(Gate::Maj), "signal input1, signal input2, signal input3");
    assert_eq!(id_parameters(Gate::And), "uint64_t id1, uint64_t id2");
    assert_eq!(parameters("x", 0), "");
    assert_eq!(parameters("x", 12).split(", ").last(), Some("x12"));
    assert_eq!(parameters("x", 255).split(", ").count(), 255);
}
