use interval_heap::IntervalHeap;
use rand::RngCore;

#[test]
fn fuzz_push_into_sorted_vec() {
    let mut rng = rand::thread_rng();
    let mut tmp: Vec<u32> = Vec::with_capacity(100);
    for _ in 0..100 {
        tmp.clear();
        let mut ih = IntervalHeap::from_vec(tmp);
        for _ in 0..100 {
            ih.push(rng.next_u32());
        }
        tmp = ih.into_sorted_vec();
        for pair in tmp.windows(2) {
            assert!(pair[0] <= pair[1]);
        }
    }
}

#[test]
fn fuzz_pop_min() {
    let mut rng = rand::thread_rng();
    let mut tmp: Vec<u32> = Vec::with_capacity(100);
    for _ in 0..100 {
        tmp.clear();
        let mut ih = IntervalHeap::from_vec(tmp);
        for _ in 0..100 {
            ih.push(rng.next_u32());
        }
        let mut tmpx: Option<u32> = None;
        loop {
            let tmpy = ih.pop_min();
            match (tmpx, tmpy) {
                (_, None) => break,
                (Some(x), Some(y)) => assert!(x <= y),
                _ => (),
            }
            tmpx = tmpy;
        }
        tmp = ih.into_vec();
    }
}

#[test]
fn fuzz_pop_max() {
    let mut rng = rand::thread_rng();
    let mut tmp: Vec<u32> = Vec::with_capacity(100);
    for _ in 0..100 {
        tmp.clear();
        let mut ih = IntervalHeap::from_vec(tmp);
        for _ in 0..100 {
            ih.push(rng.next_u32());
        }
        let mut tmpx: Option<u32> = None;
        loop {
            let tmpy = ih.pop_max();
            match (tmpx, tmpy) {
                (_, None) => break,
                (Some(x), Some(y)) => assert!(x >= y),
                _ => (),
            }
            tmpx = tmpy;
        }
        tmp = ih.into_vec();
    }
}
