use non_layered_tidy_trees::phases::{Elapsed, Phases};

fn ms(n: u64) -> Elapsed {
    Elapsed::new(n / 1000, ((n % 1000) * 1_000_000) as u32)
}

#[test]
fn phases_come_out_in_the_order_they_run() {
    let p = Phases {
        build: ms(1),
        setup: ms(2),
        first: ms(3),
        second: ms(4),
        third: ms(5),
        write_back: ms(6),
    };
    let names: Vec<&str> = p.iter().iter().map(|(n, _)| *n).collect();
    assert_eq!(names, ["build", "setup", "first", "second", "third", "write"]);
    let spans: Vec<Elapsed> = p.iter().iter().map(|(_, d)| *d).collect();
    assert_eq!(spans, [ms(1), ms(2), ms(3), ms(4), ms(5), ms(6)]);
}

#[test]
fn the_total_is_the_sum_of_the_phases() {
    let p = Phases {
        build: ms(400),
        setup: ms(700),
        first: ms(1900),
        second: Elapsed::new(0, 3),
        third: Elapsed::new(2, 999_999_999),
        write_back: ms(0),
    };
    let t = p.total();
    assert_eq!(t.as_secs(), 6);
    assert_eq!(t.subsec_nanos(), 2);
    assert_eq!(Phases::default().total(), Elapsed::zero());
}

#[test]
fn nanoseconds_carry_into_seconds() {
    let e = Elapsed::new(1, 2_500_000_000);
    assert_eq!((e.as_secs(), e.subsec_nanos()), (3, 500_000_000));

    let sum = Elapsed::new(0, 600_000_000).add(Elapsed::new(0, 700_000_000));
    assert_eq!((sum.as_secs(), sum.subsec_nanos()), (1, 300_000_000));
    assert_eq!(Elapsed::default(), Elapsed::zero());
}
