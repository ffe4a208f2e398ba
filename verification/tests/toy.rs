use mastermind::toy::{
    compute, Candidates, Counter, LevelFinder, N_MAX_CANDIDATES, N_MAX_LEVELS, NUMBER_STOPPER,
};

#[test]
fn check_counter() {
    // verification that the stopper works
    let mut lf_stop = LevelFinder::next(N_MAX_LEVELS, NUMBER_STOPPER);
    let i = 3;
    lf_stop.count(i);
    assert_eq!(lf_stop.counter, Counter::Done(NUMBER_STOPPER + i))
}

#[test]
fn check_candidates() {
    let mut lf = LevelFinder::new();

    lf.solve();
    let _a = 2;
    assert_eq!(lf.counter, Counter::Done(N_MAX_LEVELS + NUMBER_STOPPER - 1))
}

#[test]
fn test_compute() {
    compute();
}

const N_ELEMENTS: i32 = 3;

#[derive(Debug, PartialEq)]
enum TestEnum {
    Fresh,
    Initialized(Vec<i32>),
}

impl Default for TestEnum {
    fn default() -> Self {
        TestEnum::Fresh
    }
}

impl TestEnum {
    pub fn init(&mut self) {
        *self = TestEnum::Initialized((0..N_ELEMENTS).into_iter().collect());
    }
    pub fn augment(&mut self) {
        if let TestEnum::Initialized(vec) = self {
            vec.iter_mut().for_each(|x| *x += 1);
        } else {
            self.init();
        }
    }
}

#[test]
fn test_enum() {
    let mut e = TestEnum::default();
    assert_eq!(e, TestEnum::Fresh);

    e.init();
    assert_eq!(e, TestEnum::Initialized(vec![0, 1, 2]));

    e.augment();
    assert_eq!(e, TestEnum::Initialized(vec![1, 2, 3]));
}

#[derive(Debug, PartialEq)]
struct TestStruct {
    level: i32,
    draw: i32,
    links: TestLinks,
}

impl TestStruct {
    pub fn new(level: i32, draw: i32) -> Self {
        TestStruct { level: level, links: TestLinks::Fresh, draw: draw }
    }
    pub fn propagate(&mut self) {
        self.links.propagate(self.level + 1)
    }
}

#[derive(Debug, PartialEq)]
enum TestLinks {
    Fresh,
    Initialized(Vec<TestStruct>),
}

impl TestLinks {
    pub fn init(&mut self, level: i32) {
        *self = TestLinks::Initialized(
            (0..N_ELEMENTS).into_iter().map(|x| TestStruct::new(level, x)).collect(),
        );
    }
    pub fn propagate(&mut self, level_next: i32) {
        if let TestLinks::Initialized(vec) = self {
            vec.iter_mut().for_each(|x| x.propagate());
        } else {
            self.init(level_next);
        }
    }
}

#[test]
fn test_struct() {
    let mut some_structure = TestStruct::new(0, 0);

    // create 1st level
    some_structure.propagate();
    // create 2nd level
    some_structure.propagate();
    assert_eq!(some_structure.draw, 0);
}

struct ToyStruct {
    data: i32,
}

impl ToyStruct {
    pub fn augment(&mut self) {
        self.data += 1
    }
}

#[test]
fn test_toy_struct() {
    let mut t = ToyStruct { data: 1 };

    t.augment();
    assert_eq!(t.data, 2);
}

#[derive(PartialEq, Debug)]
#[allow(non_camel_case_types)]
enum test_retain_kind {
    raw,
    initialized(Vec<i32>),
}

impl test_retain_kind {
    pub fn init(&mut self) {
        if let test_retain_kind::raw = *self {
            *self = test_retain_kind::initialized((0..4).collect())
        }
    }
    pub fn prune(&mut self) {
        if let test_retain_kind::initialized(vec) = self {
            vec.retain(|x| x % 2 == 0);
        }
    }
}

#[test]
fn test_retain() {
    let mut tr: test_retain_kind = test_retain_kind::raw;
    tr.init();
    assert_eq!(tr, test_retain_kind::initialized((0..4).collect()));
    tr.prune();
    assert_eq!(tr, test_retain_kind::initialized(vec![0, 2]));
}

// ---------------------------------------------------------------------------
// Further cases
// ---------------------------------------------------------------------------

#[test]
fn propagation_creates_one_level() {
    let mut lf = LevelFinder::new();
    lf.propagate();
    match &lf.candidates {
        Candidates::Initialized(v) => {
            assert_eq!(v.len() as i32, N_MAX_CANDIDATES);
            for (i, c) in v.iter().enumerate() {
                assert_eq!(c.level, 1);
                assert_eq!(c.draw, i as i32 + 1);
                assert_eq!(c.counter, Counter::Fresh);
            }
        }
        Candidates::Fresh => panic!("a level was created"),
    }
    lf.propagate();
    assert_eq!(lf.counter, Counter::Fresh);
}

#[test]
fn counting_without_finished_child_counts_on() {
    let mut lf = LevelFinder::new();
    lf.propagate();
    let c = *lf.count(0);
    assert_eq!(c, Counter::Counted(0));
    assert!(!lf.is_done());
}

#[test]
fn counting_children_returns_their_least_count() {
    let mut single = Candidates::Initialized(vec![LevelFinder::next(1, 2)]);
    assert_eq!(single.count(0), Counter::Counted(2));

    let mut three = Candidates::Initialized(vec![
        LevelFinder::next(1, 3),
        LevelFinder::next(1, 1),
        LevelFinder::next(1, 2),
    ]);
    assert_eq!(three.count(5), Counter::Counted(6));
    if let Candidates::Initialized(v) = &three {
        assert_eq!(v[0].counter, Counter::Counted(8));
        assert_eq!(v[1].counter, Counter::Counted(6));
        assert_eq!(v[2].counter, Counter::Counted(7));
    }

    let mut none = Candidates::Initialized(Vec::new());
    assert_eq!(none.count(4), Counter::Fresh);
    let mut fresh = Candidates::Fresh;
    assert_eq!(fresh.count(4), Counter::Fresh);
}

#[test]
fn counting_children_with_a_finished_one_returns_it() {
    let mut done = LevelFinder::next(N_MAX_LEVELS, NUMBER_STOPPER);
    done.count(2);
    let mut c = Candidates::Initialized(vec![LevelFinder::next(N_MAX_LEVELS, 1), done]);
    assert_eq!(c.count(0), Counter::Done(NUMBER_STOPPER + 2));
}

#[test]
fn any_draw_can_be_propagated_and_counted() {
    let mut lf = LevelFinder::next(1, 100);
    lf.propagate();
    assert_eq!(lf.count(-50), &Counter::Counted(50));
    if let Candidates::Initialized(v) = &lf.candidates {
        assert_eq!(v.len(), 3);
        assert_eq!(v[0].counter, Counter::Counted(51));
        assert_eq!(v[2].counter, Counter::Counted(53));
    } else {
        panic!("a level was created");
    }
}

#[test]
fn a_negative_level_can_be_propagated() {
    let mut lf = LevelFinder::next(-5, 2);
    lf.propagate();
    if let Candidates::Initialized(v) = &lf.candidates {
        assert!(v.iter().all(|c| c.level == -4));
    } else {
        panic!("a level was created");
    }
}
