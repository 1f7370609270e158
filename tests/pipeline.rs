use arithmetic_coding::{
    BitConverter, Chain, FromBits, IntoBits, IteratorTransforms, ResultWrap, Source, Transform,
    TransformIterator,
    VecSource,
};

fn drain<S: Source>(mut src: S) -> Vec<S::Item> {
    let mut out = Vec::new();
    while let Some(x) = src.pull() {
        out.push(x);
    }
    out
}

#[test]
fn vec_source_yields_items_in_order() {
    let mut src = VecSource::new(vec![3u8, 1, 2]);
    assert_eq!(src.pull(), Some(3));
    assert_eq!(src.pull(), Some(1));
    assert_eq!(src.pull(), Some(2));
    assert_eq!(src.pull(), None);
    assert_eq!(src.pull(), None);
}

#[test]
fn bytes_split_most_significant_first() {
    let bits = drain(TransformIterator::new(VecSource::new(vec![0b1010_0001u8]), IntoBits::<u8>::new()));
    assert_eq!(bits, vec![true, false, true, false, false, false, false, true]);
}

#[test]
fn bits_assemble_with_zero_fill() {
    let bytes = drain(TransformIterator::new(
        VecSource::new(vec![true, true, false, false, false, false, false, true, true]),
        FromBits::<u8>::new(),
    ));
    assert_eq!(bytes, vec![0b1100_0001u8, 0b1000_0000u8]);
}

#[test]
fn u8_bits_round_trip() {
    let items: Vec<u8> = vec![0, 1, 127, 128, 255, 42];
    let conv = BitConverter::<u8>::new();
    let bits = drain(TransformIterator::new(VecSource::new(items.clone()), conv.encoder()));
    assert_eq!(bits.len(), 48);
    let back = drain(TransformIterator::new(VecSource::new(bits), conv.decoder()));
    assert_eq!(back, items);
}

#[test]
fn u16_and_u32_bits_round_trip() {
    let items: Vec<u16> = vec![0, 1, 65535, 4660];
    let conv = BitConverter::<u16>::new();
    let bits = drain(TransformIterator::new(VecSource::new(items.clone()), conv.encoder()));
    assert_eq!(bits.len(), 64);
    assert_eq!(drain(TransformIterator::new(VecSource::new(bits), conv.decoder())), items);

    let items: Vec<u32> = vec![0, u32::MAX, 0xdead_beef];
    let conv = BitConverter::<u32>::new();
    let bits = drain(TransformIterator::new(VecSource::new(items.clone()), conv.encoder()));
    assert_eq!(bits.len(), 96);
    assert_eq!(drain(TransformIterator::new(VecSource::new(bits), conv.decoder())), items);
}

#[test]
fn chained_stages_compose() {
    let chain = Chain { first: IntoBits::<u8>::new(), second: FromBits::<u8>::new() };
    let items = vec![9u8, 200, 31];
    assert_eq!(drain(TransformIterator::new(VecSource::new(items.clone()), chain)), items);
}

#[test]
fn chaining_is_associative() {
    let left = Chain {
        first: Chain { first: IntoBits::<u16>::new(), second: FromBits::<u8>::new() },
        second: ResultWrap::new(),
    };
    let right = Chain {
        first: IntoBits::<u16>::new(),
        second: Chain { first: FromBits::<u8>::new(), second: ResultWrap::new() },
    };
    let items: Vec<u16> = vec![0x1234, 0xff00];
    let a = drain(TransformIterator::new(VecSource::new(items.clone()), left));
    let b = drain(TransformIterator::new(VecSource::new(items), right));
    assert_eq!(a, b);
    assert_eq!(a, vec![Ok(0x12u8), Ok(0x34), Ok(0xff), Ok(0x00)]);
}

#[test]
fn take_stops_at_the_end() {
    let mut it = TransformIterator::new(VecSource::new(vec![1u8]), IntoBits::<u8>::new());
    let first = it.take(3);
    assert_eq!(first, vec![false, false, false]);
    let rest = it.take(100);
    assert_eq!(rest, vec![false, false, false, false, true]);
}

#[test]
fn stage_runs_without_upstream_items() {
    let mut stage = ResultWrap::<u8>::new();
    let mut src = VecSource::new(Vec::<u8>::new());
    assert_eq!(stage.next(&mut src), None);
}

#[test]
fn apply_builds_a_pipeline() {
    let bits = drain(VecSource::new(vec![0x0fu8]).apply(IntoBits::<u8>::new()));
    assert_eq!(bits, vec![false, false, false, false, true, true, true, true]);
    let back = drain(VecSource::new(bits).apply(FromBits::<u8>::new()).apply(ResultWrap::new()));
    assert_eq!(back, vec![Ok(0x0fu8)]);
}
