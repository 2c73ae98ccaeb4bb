use stride::{Cursor, MutStride, Stride};

fn forward<A: Copy>(mut it: Stride<'_, A>) -> Vec<A> {
    let mut out = Vec::new();
    while let Some(x) = it.next() {
        out.push(*x);
    }
    out
}

fn backward<A: Copy>(mut it: Stride<'_, A>) -> Vec<A> {
    let mut out = Vec::new();
    while let Some(x) = it.next_back() {
        out.push(*x);
    }
    out
}

fn ceil(n: usize, d: usize) -> usize {
    (n + d - 1) / d
}

#[test]
fn six_elements_step_two() {
    let xs = [0, 1, 2, 3, 4, 5];
    let it = Stride::from_slice(&xs, 2);
    assert_eq!(forward(it), vec![0, 2, 4]);
    assert_eq!(it.len(), 3);
    let mut it2 = it;
    assert_eq!(it2.next(), Some(&0));
    assert_eq!(forward(it2), vec![2, 4]);
    assert_eq!(it2.len(), 2);
    let mut rev = it;
    rev.swap_ends();
    assert_eq!(forward(rev), vec![4, 2, 0]);
    it2.swap_ends();
    assert_eq!(forward(it2), vec![4, 2]);
}

#[test]
fn seven_elements_step_three() {
    let xs: Vec<usize> = (0..7).collect();
    let it = Stride::from_slice(&xs, 3);
    assert_eq!(forward(it), vec![0, 3, 6]);
    assert_eq!(it.len(), 3);
    assert_eq!(ceil(7, 3), 3);
}

#[test]
fn empty_buffer_starts_exhausted() {
    let xs: [i32; 0] = [];
    for step in [1usize, 2, 5, 100] {
        let mut it = Stride::from_slice(&xs, step);
        assert!(it.is_empty());
        assert_eq!(it.len(), 0);
        assert_eq!(it.size_hint(), (0, Some(0)));
        assert_eq!(it.next(), None);
        assert_eq!(it.next_back(), None);
        it.swap_ends();
        assert_eq!(it.next(), None);
    }
}

#[test]
fn fresh_count_is_ceiling() {
    for n in 0..25usize {
        let xs: Vec<usize> = (0..n).collect();
        for step in 1..9usize {
            let it = Stride::from_slice(&xs, step);
            assert_eq!(forward(it).len(), ceil(n, step));
            assert_eq!(it.len(), ceil(n, step));
        }
    }
}

#[test]
fn step_larger_than_buffer() {
    let xs = [7, 8, 9];
    let it = Stride::from_slice(&xs, 10);
    assert_eq!(forward(it), vec![7]);
    let it = Stride::from_slice(&xs, isize::MAX as usize);
    assert_eq!(forward(it), vec![7]);
}

#[test]
fn forward_is_backward_reversed() {
    let xs: Vec<u32> = (0..20).map(|x| x * x).collect();
    for step in 1..7usize {
        let it = Stride::from_slice(&xs, step);
        let mut back = backward(it);
        back.reverse();
        assert_eq!(forward(it), back);
    }
}

#[test]
fn double_reversal_is_identity() {
    let xs: Vec<i64> = (0..11).collect();
    let it = Stride::from_slice(&xs, 4);
    let mut twice = it;
    twice.swap_ends();
    assert_eq!(forward(twice), vec![8, 4, 0]);
    twice.swap_ends();
    assert_eq!(forward(twice), forward(it));
}

#[test]
fn remaining_count_after_steps() {
    let xs: Vec<i32> = (0..17).collect();
    let it = Stride::from_slice(&xs, 3);
    let total = it.len();
    assert_eq!(total, 6);
    for k in 0..=total {
        let mut front = it;
        let mut back = it;
        for _ in 0..k {
            assert!(front.next().is_some());
            assert!(back.next_back().is_some());
        }
        assert_eq!(front.len(), total - k);
        assert_eq!(back.len(), total - k);
        assert_eq!(front.size_hint(), (total - k, Some(total - k)));
    }
}

#[test]
fn interleaved_steps_meet_in_the_middle() {
    let xs: Vec<i32> = (0..10).collect();
    let mut it = Stride::from_slice(&xs, 2);
    assert_eq!(it.next(), Some(&0));
    assert_eq!(it.next_back(), Some(&8));
    assert_eq!(it.next(), Some(&2));
    assert_eq!(it.next_back(), Some(&6));
    assert_eq!(it.next(), Some(&4));
    assert_eq!(it.next_back(), None);
    assert_eq!(it.next(), None);
    assert_eq!(it.len(), 0);
}

#[test]
fn coarsening_matches_direct_step() {
    for n in 0..40usize {
        let xs: Vec<usize> = (0..n).collect();
        for s1 in 1..5usize {
            for s2 in 1..5usize {
                let it = Stride::from_stride(Stride::from_slice(&xs, s1), s2);
                let direct = Stride::from_slice(&xs, s1 * s2);
                assert_eq!(forward(it), forward(direct));
                assert_eq!(it.len(), ceil(ceil(n, s1), s2));
            }
        }
    }
}

#[test]
fn coarsening_keeps_whole_jumps_only() {
    let xs: Vec<i32> = (0..6).collect();
    let it = Stride::from_stride(Stride::from_slice(&xs, 1), 4);
    assert_eq!(forward(it), vec![0, 4]);
    let it = Stride::from_stride(Stride::from_slice(&xs, 1), 5);
    assert_eq!(forward(it), vec![0, 5]);
    let it = Stride::from_stride(Stride::from_slice(&xs, 1), 6);
    assert_eq!(forward(it), vec![0]);
}

#[test]
fn coarsening_a_reversed_iterator() {
    let xs: Vec<i32> = (0..10).collect();
    let mut it = Stride::from_slice(&xs, 1);
    it.swap_ends();
    let it = Stride::from_stride(it, 3);
    assert_eq!(forward(it), vec![9, 6, 3, 0]);
    let mut partly = Stride::from_slice(&xs, 2);
    partly.next();
    let coarse = Stride::from_stride(partly, 2);
    assert_eq!(forward(coarse), vec![2, 6]);
}

#[test]
fn coarsening_an_exhausted_iterator() {
    let xs: [u8; 0] = [];
    let it = Stride::from_stride(Stride::from_slice(&xs, 3), 2);
    assert!(it.is_empty());
    assert_eq!(forward(it), Vec::<u8>::new());
}

#[test]
fn index_matches_forward_steps() {
    let xs: Vec<i32> = (0..23).map(|x| 3 * x + 1).collect();
    let it = Stride::from_slice(&xs, 5);
    for i in 0..it.len() {
        let mut walker = it;
        let mut last = None;
        for _ in 0..=i {
            last = walker.next();
        }
        assert_eq!(Some(it.index(i)), last);
    }
    assert_eq!(*it.index(2), 31);
}

#[test]
fn from_ptrs_descending() {
    let xs: Vec<i32> = (0..10).collect();
    let it = Stride::from_ptrs(&xs, 9, 1, -4);
    assert_eq!(it.len(), 3);
    assert_eq!(forward(it), vec![9, 5, 1]);
    let one = Stride::from_ptrs(&xs, 4, 4, 3);
    assert_eq!(forward(one), vec![4]);
}

#[test]
fn copies_are_independent() {
    let xs = [1, 2, 3, 4];
    let mut it = Stride::from_slice(&xs, 1);
    let saved = it.clone();
    it.next();
    it.next();
    assert_eq!(it.len(), 2);
    assert_eq!(saved.len(), 4);
    assert_eq!(forward(saved), vec![1, 2, 3, 4]);
}

#[test]
fn mut_stride_writes_every_other() {
    let mut xs = [0, 1, 2, 3, 4, 5, 6];
    {
        let mut it = MutStride::from_mut_slice(&mut xs, 2);
        assert_eq!(it.len(), 4);
        while let Some(x) = it.next() {
            *x *= 10;
        }
        assert!(it.is_empty());
    }
    assert_eq!(xs, [0, 1, 20, 3, 40, 5, 60]);
}

#[test]
fn mut_stride_backward_and_reversed() {
    let mut xs = [0u32; 9];
    {
        let mut it = MutStride::from_mut_slice(&mut xs, 3);
        let mut k = 1;
        while let Some(x) = it.next_back() {
            *x = k;
            k += 1;
        }
    }
    assert_eq!(xs, [3, 0, 0, 2, 0, 0, 1, 0, 0]);
    {
        let mut it = MutStride::from_mut_slice(&mut xs, 4);
        it.swap_ends();
        assert_eq!(*it.index(0), 0);
        *it.next().unwrap() = 9;
        assert_eq!(it.size_hint(), (2, Some(2)));
    }
    assert_eq!(xs, [3, 0, 0, 2, 0, 0, 1, 0, 9]);
}

#[test]
fn mut_stride_coarsened_and_raw_range() {
    let mut xs: Vec<i32> = (0..12).collect();
    {
        let it = MutStride::from_mut_slice(&mut xs, 2);
        let mut it = MutStride::from_mut_stride(it, 3);
        assert_eq!(it.len(), 2);
        assert_eq!(*it.index(1), 6);
        while let Some(x) = it.next() {
            *x = -*x - 1;
        }
    }
    assert_eq!(xs, vec![-1, 1, 2, 3, 4, 5, -7, 7, 8, 9, 10, 11]);
    {
        let mut it = MutStride::from_ptrs(&mut xs, 11, 3, -4);
        assert_eq!(it.len(), 3);
        while let Some(x) = it.next() {
            *x = 0;
        }
    }
    assert_eq!(xs, vec![-1, 1, 2, 0, 4, 5, -7, 0, 8, 9, 10, 0]);
}

#[test]
fn empty_mut_stride() {
    let mut xs: [u8; 0] = [];
    let mut it = MutStride::from_mut_slice(&mut xs, 4);
    assert!(it.next().is_none());
    assert!(it.next_back().is_none());
    assert_eq!(it.len(), 0);
}

#[test]
fn cursor_positions() {
    let mut c = Cursor::new(10, 3);
    assert_eq!(c.len(), 4);
    assert_eq!(c.pos(3), 9);
    assert_eq!(c.next_pos(), Some(0));
    assert_eq!(c.next_back_pos(), Some(9));
    c.swap_ends();
    assert_eq!(c.next_pos(), Some(6));
    assert_eq!(c.next_pos(), Some(3));
    assert_eq!(c.next_pos(), None);
    let r = Cursor::from_range(20, 2, 17, 5);
    assert_eq!(r.len(), 4);
    let coarse = r.coarsen(2);
    assert_eq!(coarse.len(), 2);
    assert_eq!(coarse.pos(1), 12);
}

