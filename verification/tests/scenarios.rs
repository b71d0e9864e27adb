use immix_rust::common::Address;
use immix_rust::heap::freelist::FreeListSpace;
use immix_rust::heap::gc::single_thread_trace::start_trace;
use immix_rust::heap::gc::{gc_count, BarrierOutcome, CollectOutcome};
use immix_rust::heap::immix::{ImmixMutatorLocal, ImmixSpace, LineMark};
use immix_rust::heap::ImmixGC;

const BLOCK: usize = 65536;

fn new_gc(space_size: usize) -> ImmixGC {
    ImmixGC::new(ImmixSpace::new(space_size).unwrap(), FreeListSpace::new(1 << 20))
}

/// Allocates, going through a yieldpoint with the roots `roots` whenever the
/// mutator has to.
fn allocate(
    gc: &mut ImmixGC,
    m: &mut ImmixMutatorLocal,
    size: usize,
    align: usize,
    roots: &Vec<usize>,
) -> Address {
    loop {
        if let Some(a) = m.allocate(gc, size, align) {
            return a;
        }
        match m.yieldpoint(gc, roots) {
            None | Some(BarrierOutcome::Collected(CollectOutcome::Done)) => {}
            other => panic!("collection failed: {:?}", other),
        }
    }
}

#[test]
fn single_thread_exhaust() {
    let mut gc = new_gc(1 << 30);
    let (start, end) = (gc.space.start(), gc.space.end());
    let mut m = ImmixMutatorLocal::new(&mut gc);
    let roots = Vec::new();
    let mut allocated_bytes: usize = 0;
    for _ in 0..50_000_000 {
        let a = allocate(&mut gc, &mut m, 24, 8, &roots);
        assert!(a >= start && a < end);
        m.init_object(&mut gc, a, 0b1100_0011);
        allocated_bytes += 24;
    }
    assert_eq!(allocated_bytes, 1_200_000_000);
    assert!(gc_count(&gc) >= 1);
}

#[test]
fn linked_list_trace() {
    const N: usize = 1_000_000;
    let mut gc = new_gc(32 << 20);
    let mut m = ImmixMutatorLocal::new(&mut gc);
    let roots = Vec::new();
    let root = allocate(&mut gc, &mut m, 24, 8, &roots);
    m.init_object(&mut gc, root, 0b1100_0001);
    let mut objects = vec![root];
    let mut prev = root;
    for _ in 0..N - 1 {
        let a = allocate(&mut gc, &mut m, 24, 8, &roots);
        m.init_object(&mut gc, a, 0b1100_0001);
        gc.space.store_word(prev, a.as_usize() as u64);
        objects.push(a);
        prev = a;
    }
    assert_eq!(gc_count(&gc), 0);
    let mut work = vec![root.to_object_reference()];
    assert_eq!(start_trace(&mut work, &mut gc.space), Ok(()));
    for a in &objects {
        assert!(gc.space.is_traced(*a));
    }
    let (start, end) = (gc.space.start(), gc.space.end());
    let traced = (0..end.diff(start) / 8).filter(|i| gc.space.is_traced(start.plus(8 * i))).count();
    assert_eq!(traced, N);
}

struct Bench {
    gc: ImmixGC,
    mutator: ImmixMutatorLocal,
    roots: Vec<usize>,
}

impl Bench {
    fn node(&mut self) -> Address {
        let a = allocate(&mut self.gc, &mut self.mutator, 24, 8, &self.roots);
        self.mutator.init_object(&mut self.gc, a, 0b1100_0011);
        self.gc.space.store_word(a, 0);
        self.gc.space.store_word(a.plus(8), 0);
        a
    }

    fn set(&mut self, node: Address, left: Address, right: Address) {
        self.gc.space.store_word(node, left.as_usize() as u64);
        self.gc.space.store_word(node.plus(8), right.as_usize() as u64);
    }

    fn populate(&mut self, depth: i32, node: Address) {
        if depth <= 0 {
            return;
        }
        // The node under construction is held by the stack.
        self.roots.push(node.as_usize());
        let left = self.node();
        self.gc.space.store_word(node, left.as_usize() as u64);
        let right = self.node();
        self.gc.space.store_word(node.plus(8), right.as_usize() as u64);
        self.roots.pop();
        self.populate(depth - 1, left);
        self.populate(depth - 1, right);
    }

    fn make_tree(&mut self, depth: i32) -> Address {
        if depth <= 0 {
            self.node()
        } else {
            let left = self.make_tree(depth - 1);
            let right = self.make_tree(depth - 1);
            let result = self.node();
            self.set(result, left, right);
            result
        }
    }

    /// The number of nodes under `node`, each of which has to be an object
    /// in a line that is in use.
    fn count_live(&self, node: Address, start: Address) -> usize {
        if node.is_zero() {
            return 0;
        }
        assert_eq!(self.gc.space.get_ref_byte(node), 0b1100_0011);
        let mark = self.gc.space.line_mark_table().get(node.diff(start) / 256);
        assert!(mark == LineMark::Live || mark == LineMark::FreshAlloc);
        let left = Address::from_usize(self.gc.space.load_word(node) as usize);
        let right = Address::from_usize(self.gc.space.load_word(node.plus(8)) as usize);
        1 + self.count_live(left, start) + self.count_live(right, start)
    }
}

fn tree_size(depth: i32) -> i32 {
    (1 << (depth + 1)) - 1
}

fn num_iters(depth: i32) -> i32 {
    2 * tree_size(18) / tree_size(depth)
}

#[test]
fn binary_tree_gcbench() {
    let mut gc = new_gc(64 << 20);
    let mutator = ImmixMutatorLocal::new(&mut gc);
    let start = gc.space.start();
    let mut bench = Bench { gc, mutator, roots: Vec::new() };
    // Stretch the memory, then drop the tree.
    bench.make_tree(18);
    // The long-lived tree is held by a root.
    let long_lived = bench.node();
    bench.roots.push(long_lived.as_usize());
    bench.populate(16, long_lived);
    assert_eq!(bench.count_live(long_lived, start), tree_size(16) as usize);
    let mut depth = 4;
    while depth <= 16 {
        for _ in 0..num_iters(depth) {
            let temp = bench.node();
            bench.populate(depth, temp);
        }
        for _ in 0..num_iters(depth) {
            bench.make_tree(depth);
        }
        depth += 2;
    }
    assert!(gc_count(&bench.gc) > 0);
    assert_eq!(bench.count_live(long_lived, start), tree_size(16) as usize);
    // The long-lived tree was marked by the collections.
    assert_eq!(bench.gc.space.line_mark_table().get(long_lived.diff(start) / 256), LineMark::Live);
}

#[test]
fn multi_mutator_gcbench() {
    const MUTATORS: usize = 4;
    let mut gc = new_gc(64 << 20);
    let start = gc.space.start();
    let mut mutators: Vec<ImmixMutatorLocal> =
        (0..MUTATORS).map(|_| ImmixMutatorLocal::new(&mut gc)).collect();
    assert_eq!(gc.coordinator.mutators_registered(), MUTATORS);
    // Each mutator keeps a list alive and makes garbage; the mutators take
    // turns, an object each.
    let mut heads = vec![0usize; MUTATORS];
    let mut lengths = vec![0usize; MUTATORS];
    let mut waiting = vec![false; MUTATORS];
    let mut allocated = 0usize;
    let mut turn = 0usize;
    while allocated < 6_000_000 {
        let i = turn % MUTATORS;
        turn += 1;
        if waiting[i] {
            if gc.coordinator.controller() == Some(mutators[i].id()) {
                if immix_rust::heap::gc::collect(&mut gc, &mut mutators[i]) == CollectOutcome::Done {
                    waiting[i] = false;
                }
            } else if !gc.coordinator.is_still_blocked(mutators[i].id()) {
                waiting[i] = false;
            }
            continue;
        }
        match mutators[i].allocate(&mut gc, 24, 8) {
            Some(a) => {
                allocated += 1;
                mutators[i].init_object(&mut gc, a, 0b1100_0001);
                if allocated % 64 < MUTATORS && lengths[i] < 20_000 {
                    gc.space.store_word(a, heads[i] as u64);
                    heads[i] = a.as_usize();
                    lengths[i] += 1;
                } else {
                    gc.space.store_word(a, 0);
                }
            }
            None => match mutators[i].yieldpoint(&mut gc, &vec![heads[i]]) {
                None | Some(BarrierOutcome::Collected(CollectOutcome::Done)) => {}
                Some(BarrierOutcome::Parked) | Some(BarrierOutcome::AwaitParked) => {
                    waiting[i] = true;
                }
                other => panic!("collection failed: {:?}", other),
            },
        }
    }
    assert!(gc_count(&gc) > 0);
    for i in 0..MUTATORS {
        assert!(lengths[i] > 0);
        let mut n = 0;
        let mut at = heads[i];
        while at != 0 {
            let a = Address::from_usize(at);
            assert_eq!(gc.space.get_ref_byte(a), 0b1100_0001);
            let mark = gc.space.line_mark_table().get(a.diff(start) / 256);
            assert!(mark == LineMark::Live || mark == LineMark::FreshAlloc);
            at = gc.space.load_word(a) as usize;
            n += 1;
        }
        assert_eq!(n, lengths[i]);
    }
    for mut m in mutators {
        m.destroy(&mut gc);
    }
    assert_eq!(gc.coordinator.mutators_registered(), 0);
}

#[test]
fn block_recycling() {
    let mut gc = new_gc(16 << 20);
    let start = gc.space.start();
    let mut m = ImmixMutatorLocal::new(&mut gc);
    let total = gc.space.total_blocks();
    assert_eq!(total, 256);
    // How often each block was allocated into after a collection had handed
    // it back.
    let mut epochs = vec![0usize; total];
    let mut seen_in_epoch = vec![usize::MAX; total];
    let roots = Vec::new();
    for _ in 0..3 * (16 << 20) / 32 {
        let a = allocate(&mut gc, &mut m, 32, 8, &roots);
        m.init_object(&mut gc, a, 0b1100_0001);
        let block = a.diff(start) / BLOCK;
        let epoch = gc_count(&gc);
        if seen_in_epoch[block] != epoch {
            seen_in_epoch[block] = epoch;
            epochs[block] += 1;
        }
    }
    assert!(gc_count(&gc) >= 2);
    // Every block was filled, handed back, swept and handed out again.
    for block in 0..total {
        assert!(epochs[block] >= 2);
    }
}
