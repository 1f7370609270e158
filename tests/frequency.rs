use arithmetic_coding::{FreqTable, SymbolFreq};

const FREQ_MAX: u32 = 32767;

#[test]
fn uniform_model_ranges() {
    let model = FreqTable::default();
    assert_eq!(model.len(), 256);
    assert_eq!(model.range(0), (0, 1));
    assert_eq!(model.range(65), (65, 66));
    assert_eq!(model.range(255), (255, 256));
}

#[test]
fn add_raises_one_frequency() {
    let mut model = FreqTable::default();
    let before: Vec<(u32, u32)> = (0..=255u8).map(|s| model.range(s)).collect();
    assert_eq!(model.add(65, 10), Some(()));
    assert_eq!(model.len(), 266);
    assert_eq!(model.range(65), (65, 76));
    for s in 0..=255u8 {
        let (l, h) = model.range(s);
        assert!(l >= before[s as usize].0 && h >= before[s as usize].1);
        let added = if s == 65 { 10 } else { 0 };
        assert_eq!(h - l, before[s as usize].1 - before[s as usize].0 + added);
    }
}

#[test]
fn update_adds_each_delta() {
    let mut model = FreqTable::default();
    let mut deltas = [0u32; 256];
    deltas[0] = 4;
    deltas[100] = 7;
    deltas[255] = 1;
    assert_eq!(model.update(deltas), Some(()));
    assert_eq!(model.len(), 268);
    assert_eq!(model.range(0), (0, 5));
    assert_eq!(model.range(1), (5, 6));
    assert_eq!(model.range(100), (104, 112));
    assert_eq!(model.range(255), (266, 268));
}

#[test]
fn add_reaching_the_ceiling_is_rejected() {
    let mut model = FreqTable::default();
    let copy = model;
    assert_eq!(model.add(7, FREQ_MAX - 256), None);
    assert_eq!(model.len(), copy.len());
    for s in 0..=255u8 {
        assert_eq!(model.range(s), copy.range(s));
    }
    assert_eq!(model.add(7, FREQ_MAX - 257), Some(()));
    assert_eq!(model.len(), FREQ_MAX - 1);
    assert_eq!(model.add(7, 1), None);
    assert_eq!(model.add(7, 0), Some(()));
}

#[test]
fn update_past_the_ceiling_is_rejected() {
    let mut model = FreqTable::default();
    let copy = model;
    let mut deltas = [0u32; 256];
    deltas[0] = u32::MAX;
    deltas[1] = u32::MAX;
    assert_eq!(model.update(deltas), None);
    let mut deltas = [100u32; 256];
    deltas[255] = FREQ_MAX;
    assert_eq!(model.update(deltas), None);
    let deltas = [127u32; 256];
    assert_eq!(model.update(deltas), None);
    for s in 0..=255u8 {
        assert_eq!(model.range(s), copy.range(s));
    }
    let deltas = [126u32; 256];
    assert_eq!(model.update(deltas), Some(()));
    assert_eq!(model.len(), 256 * 127);
}

#[test]
fn lookup_inverts_range() {
    let mut model = FreqTable::default();
    assert_eq!(model.add(10, 50), Some(()));
    for s in 0..=255u8 {
        let (l, h) = model.range(s);
        for v in l..h {
            assert_eq!(model.lookup(v), Some(((l, h), s)));
        }
    }
    assert_eq!(model.lookup(model.len()), None);
    assert_eq!(model.lookup(u32::MAX), None);
}

#[test]
fn lookup_through_trait() {
    let model = FreqTable::default();
    fn look<M: SymbolFreq<u8>>(m: &M, v: u32) -> Option<((u32, u32), u8)> {
        m.lookup(v)
    }
    assert_eq!(look(&model, 200), Some(((200, 201), 200)));
    assert_eq!(look(&model, 256), None);
}
