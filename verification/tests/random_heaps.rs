use motoko_rts::experimental::{experimental_gc_internal, Collector, Strategy};
use motoko_rts::heap::{Heap, Limits, Roots};
use motoko_rts::memory::Memory;
use motoko_rts::types::{skew, TAG_ARRAY, TAG_BLOB, TAG_MUTBOX};

const BASE: u32 = 0x1000;
const ROOT_ARRAY: u32 = 0x100;
const ROOT_BOXES: u32 = 0x400;
const TABLE_LOC: u32 = 0x300;
const ROOTS: u32 = 8;

struct Lcg(u64);

impl Lcg {
    fn next(&mut self, bound: u32) -> u32 {
        self.0 = self.0.wrapping_mul(6364136223846793005).wrapping_add(1442695040888963407);
        ((self.0 >> 33) as u32) % bound
    }
}

/// An object as the test sees it: its kind, its scalars and the objects
/// that its pointer fields refer to.
#[derive(Clone, Debug, PartialEq)]
struct Node {
    tag: u32,
    scalars: Vec<u32>,
    edges: Vec<Option<usize>>,
}

fn size_of(node: &Node) -> u32 {
    match node.tag {
        TAG_MUTBOX => 12,
        TAG_BLOB => 12 + 4 * node.scalars.len() as u32,
        _ => 12 + 4 * node.edges.len() as u32,
    }
}

fn random_graph(rng: &mut Lcg, count: usize) -> Vec<Node> {
    let mut nodes = Vec::new();
    for i in 0..count {
        let kind = rng.next(3);
        let mut node = match kind {
            0 => Node { tag: TAG_MUTBOX, scalars: vec![], edges: vec![None] },
            1 => Node {
                tag: TAG_BLOB,
                scalars: (0..rng.next(5)).map(|j| 0x1000_0000 + 16 * i as u32 + 2 * j).collect(),
                edges: vec![],
            },
            _ => Node { tag: TAG_ARRAY, scalars: vec![], edges: vec![None; rng.next(6) as usize] },
        };
        for edge in node.edges.iter_mut() {
            if rng.next(4) != 0 {
                *edge = Some(rng.next(count as u32) as usize);
            }
        }
        nodes.push(node);
    }
    nodes
}

fn lay_out(nodes: &[Node], roots: &[Option<usize>], old: usize) -> (Collector, Vec<u32>) {
    let mut addrs = Vec::new();
    let mut free = BASE;
    for node in nodes {
        addrs.push(free);
        free += size_of(node);
    }
    let last_free = if old < nodes.len() { addrs[old] } else { free };
    let mut mem = Memory::new(0x4000);
    mem.store(ROOT_ARRAY, TAG_ARRAY);
    mem.store(ROOT_ARRAY + 4, skew(ROOT_ARRAY).0);
    mem.store(ROOT_ARRAY + 8, roots.len() as u32);
    for (i, root) in roots.iter().enumerate() {
        let root_box = ROOT_BOXES + 12 * i as u32;
        mem.store(ROOT_ARRAY + 12 + 4 * i as u32, skew(root_box).0);
        mem.store(root_box, TAG_MUTBOX);
        mem.store(root_box + 4, skew(root_box).0);
        mem.store(root_box + 8, root.map_or(0, |n| skew(addrs[n]).0));
    }
    let mut fields = Vec::new();
    for (n, node) in nodes.iter().enumerate() {
        let a = addrs[n];
        mem.store(a, node.tag);
        mem.store(a + 4, skew(a).0);
        match node.tag {
            TAG_MUTBOX => fields.push((n, a + 8, node.edges[0])),
            TAG_BLOB => {
                mem.store(a + 8, 4 * node.scalars.len() as u32);
                for (j, w) in node.scalars.iter().enumerate() {
                    mem.store(a + 12 + 4 * j as u32, *w);
                }
            }
            _ => {
                mem.store(a + 8, node.edges.len() as u32);
                for (j, e) in node.edges.iter().enumerate() {
                    fields.push((n, a + 12 + 4 * j as u32, *e));
                }
            }
        }
    }
    let mut collector = Collector::new(Heap {
        mem,
        limits: Limits { base: BASE, last_free, free },
        roots: Roots { static_roots: skew(ROOT_ARRAY), continuation_table_ptr_loc: TABLE_LOC },
    });
    for (n, field, edge) in fields {
        let value = edge.map_or(2 * n as u32, |t| skew(addrs[t]).0);
        collector.gc.heap.mem.store(field, value);
        if let Some(t) = edge {
            if n < old && t >= old {
                collector.record(field, value);
            }
        }
    }
    (collector, addrs)
}

fn reachable(nodes: &[Node], roots: &[Option<usize>], old: usize, young: bool) -> Vec<bool> {
    let mut marked = vec![false; nodes.len()];
    let mut stack: Vec<usize> = roots.iter().flatten().cloned().collect();
    if young {
        for n in 0..old.min(nodes.len()) {
            stack.extend(nodes[n].edges.iter().flatten().cloned());
        }
    }
    while let Some(n) = stack.pop() {
        if marked[n] || (young && n < old) {
            continue;
        }
        marked[n] = true;
        stack.extend(nodes[n].edges.iter().flatten().cloned());
    }
    marked
}

fn check_cycle(seed: u64, count: usize, old: usize, strategy: Strategy) {
    let mut rng = Lcg(seed);
    let nodes = random_graph(&mut rng, count);
    let roots: Vec<Option<usize>> = (0..ROOTS)
        .map(|_| if rng.next(3) == 0 { Some(rng.next(count as u32) as usize) } else { None })
        .collect();
    let young = strategy == Strategy::Young;
    let old = if young { old } else { 0 };
    let (mut collector, addrs) = lay_out(&nodes, &roots, old);
    assert!(collector.is_ready(), "seed {}", seed);
    let before = collector.gc.heap.limits;
    let marked = reachable(&nodes, &roots, old, young);
    let start = if young { before.last_free } else { BASE };

    // Where each object is expected to lie after the cycle.
    let live: u32 = (0..count).filter(|n| marked[*n]).map(|n| size_of(&nodes[n])).sum();
    let compacts = 100 * (live as u64) < 95 * ((before.free - start) as u64);
    let mut moved = addrs.clone();
    if compacts {
        let mut next = start;
        for n in 0..count {
            if marked[n] {
                moved[n] = next;
                next += size_of(&nodes[n]);
            }
        }
    }

    let (reclaimed, _) = experimental_gc_internal(&mut collector.gc, strategy);
    assert_eq!(collector.gc.marked_space, live, "seed {}", seed);
    let free = if compacts { start + live } else { before.free };
    assert_eq!(collector.gc.heap.limits.free, free, "seed {}", seed);
    assert_eq!(reclaimed.0, before.free - free);

    let mem = &collector.gc.heap.mem;
    let pointer = |edge: &Option<usize>, n: usize| edge.map_or(2 * n as u32, |t| skew(moved[t]).0);
    for (i, root) in roots.iter().enumerate() {
        let expected = root.map_or(0, |n| skew(moved[n]).0);
        assert_eq!(mem.load(ROOT_BOXES + 12 * i as u32 + 8), expected, "seed {} root {}", seed, i);
    }
    for n in 0..count {
        let kept = marked[n] || n < old || !compacts;
        if !kept {
            continue;
        }
        let a = moved[n];
        assert_eq!(mem.load(a), nodes[n].tag, "seed {} object {}", seed, n);
        assert_eq!(mem.load(a + 4), skew(a).0, "seed {} object {}", seed, n);
        match nodes[n].tag {
            TAG_MUTBOX => assert_eq!(mem.load(a + 8), pointer(&nodes[n].edges[0], n)),
            TAG_BLOB => {
                assert_eq!(mem.load(a + 8), 4 * nodes[n].scalars.len() as u32);
                for (j, w) in nodes[n].scalars.iter().enumerate() {
                    assert_eq!(mem.load(a + 12 + 4 * j as u32), *w);
                }
            }
            _ => {
                assert_eq!(mem.load(a + 8), nodes[n].edges.len() as u32);
                for (j, e) in nodes[n].edges.iter().enumerate() {
                    // A dead object that stays keeps what it held.
                    if marked[n] || n < old || e.map_or(true, |t| moved[t] == addrs[t]) {
                        assert_eq!(
                            mem.load(a + 12 + 4 * j as u32),
                            pointer(e, n),
                            "seed {} object {} field {}",
                            seed,
                            n,
                            j
                        );
                    }
                }
            }
        }
    }
    if compacts || !young {
        collector.gc.heap.limits.last_free = collector.gc.heap.limits.free;
        collector.gc.remembered_set = motoko_rts::remembered_set::RememberedSet::new();
        assert!(collector.is_ready(), "seed {}", seed);
    }
}

#[test]
fn full_cycles_on_random_heaps_keep_the_reachable_graph() {
    for seed in 0..300u64 {
        check_cycle(seed, 2 + (seed % 40) as usize, 0, Strategy::Full);
    }
}

#[test]
fn young_cycles_on_random_heaps_keep_the_reachable_graph() {
    for seed in 0..300u64 {
        let count = 2 + (seed % 40) as usize;
        check_cycle(1000 + seed, count, (seed as usize * 7) % (count + 1), Strategy::Young);
    }
}
