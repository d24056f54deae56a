use arith_coder::{Model, EOF};

#[test]
fn constructor_eof_u32() {
    let model = Model::new(4, EOF::Specify(2));

    assert_eq!(2, model.eof());
    let t = model.total() as f64;
    let p0 = model.prob(0);
    let p1 = model.prob(1);
    let p2 = model.prob(2);
    let p3 = model.prob(3);
    assert_eq!((p0.0 as f64 / t, p0.1 as f64 / t), (0.0, 0.25));
    assert_eq!((p1.0 as f64 / t, p1.1 as f64 / t), (0.25, 0.5));
    assert_eq!((p2.0 as f64 / t, p2.1 as f64 / t), (0.5, 0.75));
    assert_eq!((p3.0 as f64 / t, p3.1 as f64 / t), (0.75, 1.0));
}

#[test]
fn constructor_eof_start() {
    let model = Model::new(4, EOF::Start);

    assert_eq!(0, model.eof());
    let t = model.total() as f64;
    let p0 = model.prob(0);
    let p1 = model.prob(1);
    let p2 = model.prob(2);
    let p3 = model.prob(3);
    assert_eq!((p0.0 as f64 / t, p0.1 as f64 / t), (0.0, 0.25));
    assert_eq!((p1.0 as f64 / t, p1.1 as f64 / t), (0.25, 0.5));
    assert_eq!((p2.0 as f64 / t, p2.1 as f64 / t), (0.5, 0.75));
    assert_eq!((p3.0 as f64 / t, p3.1 as f64 / t), (0.75, 1.0));
}

#[test]
fn constructor_eof_end() {
    let model = Model::new(4, EOF::End);

    assert_eq!(3, model.eof());
    let t = model.total() as f64;
    let p0 = model.prob(0);
    let p1 = model.prob(1);
    let p2 = model.prob(2);
    let p3 = model.prob(3);
    assert_eq!((p0.0 as f64 / t, p0.1 as f64 / t), (0.0, 0.25));
    assert_eq!((p1.0 as f64 / t, p1.1 as f64 / t), (0.25, 0.5));
    assert_eq!((p2.0 as f64 / t, p2.1 as f64 / t), (0.5, 0.75));
    assert_eq!((p3.0 as f64 / t, p3.1 as f64 / t), (0.75, 1.0));
}

#[test]
fn constructor_eof_endaddone() {
    let model = Model::new(3, EOF::EndAddOne);

    assert_eq!(3, model.eof());
    let t = model.total() as f64;
    let p0 = model.prob(0);
    let p1 = model.prob(1);
    let p2 = model.prob(2);
    let p3 = model.prob(3);
    assert_eq!((p0.0 as f64 / t, p0.1 as f64 / t), (0.0, 0.25));
    assert_eq!((p1.0 as f64 / t, p1.1 as f64 / t), (0.25, 0.5));
    assert_eq!((p2.0 as f64 / t, p2.1 as f64 / t), (0.5, 0.75));
    assert_eq!((p3.0 as f64 / t, p3.1 as f64 / t), (0.75, 1.0));
}

#[test]
fn probability_min() {
    let model = Model::new(2315, EOF::EndAddOne);
    assert_eq!(model.prob(0), (model.low(0), model.high(0)));
}

#[test]
fn probability_high() {
    let count = 1_000;

    let model = Model::new(count + 1, EOF::EndAddOne);

    assert_eq!(model.prob(count), (model.low(count), model.high(count)));
}

#[test]
fn update_symbols() {
    let mut model = Model::new(4, EOF::End);

    model.update_symbol(2);
    model.update_symbol(2);
    model.update_symbol(2);
    model.update_symbol(3);
    model.update_symbol(1);
    model.update_symbol(3);

    let t = model.total() as f64;
    let p0 = model.prob(0);
    let p1 = model.prob(1);
    let p2 = model.prob(2);
    let p3 = model.prob(3);
    assert_eq!((p0.0 as f64 / t, p0.1 as f64 / t), (0.0, 0.1));
    assert_eq!((p1.0 as f64 / t, p1.1 as f64 / t), (0.1, 0.3));
    assert_eq!((p2.0 as f64 / t, p2.1 as f64 / t), (0.3, 0.7));
    assert_eq!((p3.0 as f64 / t, p3.1 as f64 / t), (0.7, 1.0));
}

#[test]
fn update_changes_only_one_count() {
    let mut model = Model::new(5, EOF::End);
    let before: Vec<(u64, u64)> = (0..5).map(|s| model.prob(s)).collect();
    let total_before = model.total();

    model.update_symbol(2);

    assert_eq!(model.total(), total_before + 1);
    for s in 0..5u32 {
        let (lo, hi) = model.prob(s);
        let (lo0, hi0) = before[s as usize];
        let width = hi - lo;
        let width0 = hi0 - lo0;
        if s == 2 {
            assert_eq!(width, width0 + 1);
        } else {
            assert_eq!(width, width0);
        }
    }
}

#[test]
fn partition_covers_total() {
    let mut model = Model::new(7, EOF::EndAddOne);
    model.update_symbol(3);
    model.update_symbol(3);
    model.update_symbol(6);

    let mut edge = 0u64;
    for s in 0..8u32 {
        let (lo, hi) = model.prob(s);
        assert_eq!(lo, edge);
        assert!(lo < hi);
        edge = hi;
    }
    assert_eq!(edge, model.total());
}
