//! Sampling a connected part of the data set.
//!
//! A sample grows from a seed product breadth-first along co-purchase
//! entries: the co-purchase list of each taken ASIN (read from the last
//! product that carries it) is followed in order, and each new ASIN that
//! some product carries is taken, until the sample has the wanted size or
//! nothing is left to follow. A sample that stays short is filled up with
//! products whose ASIN was not taken.

use crate::graph::{as_ints, lemma_distinct_below};
use crate::product::{
    Product, ProductView, asin_positions, asins_of, last_positions, lemma_last_positions,
    positions_match, product_views,
};
use rand::seq::{IteratorRandom, SliceRandom};
use vstd::hash_map::StringHashMap;
use vstd::prelude::*;

verus! {

#[verifier::ext_equal]
/// A sampling run: the positions of the products taken, the positions whose
/// co-purchase lists are still to be followed, and the ASINs taken.
pub struct SampleState {
    pub picked: Seq<int>,
    pub queue: Seq<int>,
    pub seen: Set<Seq<char>>,
}

/// Follows one co-purchase entry `s`: a new ASIN that some product carries is
/// taken (as its last product) and queued, unless `size` products are
/// already taken.
pub open spec fn take_entry(
    pos: Map<Seq<char>, int>,
    size: nat,
    st: SampleState,
    s: Seq<char>,
) -> SampleState {
    if st.picked.len() >= size || st.seen.contains(s) || !pos.contains_key(s) {
        st
    } else {
        SampleState {
            picked: st.picked.push(pos[s]),
            queue: st.queue.push(pos[s]),
            seen: st.seen.insert(s),
        }
    }
}

/// Follows the first `j` entries of a co-purchase list.
pub open spec fn take_entries(
    pos: Map<Seq<char>, int>,
    size: nat,
    st: SampleState,
    list: Seq<Seq<char>>,
    j: int,
) -> SampleState
    decreases j,
{
    if j <= 0 {
        st
    } else {
        take_entry(pos, size, take_entries(pos, size, st, list, j - 1), list[j - 1])
    }
}

/// Takes the first queued position off the queue and follows its
/// co-purchase list.
pub open spec fn expand_head(
    ps: Seq<ProductView>,
    pos: Map<Seq<char>, int>,
    size: nat,
    st: SampleState,
) -> SampleState {
    let q = st.queue[0];
    let popped = SampleState { picked: st.picked, queue: st.queue.drop_first(), seen: st.seen };
    take_entries(pos, size, popped, ps[q].similar, ps[q].similar.len() as int)
}

/// At most `fuel` rounds of `expand_head`, stopping once `size` products are
/// taken or the queue is empty.
pub open spec fn run_sample(
    ps: Seq<ProductView>,
    pos: Map<Seq<char>, int>,
    size: nat,
    st: SampleState,
    fuel: nat,
) -> SampleState
    decreases fuel,
{
    if fuel == 0 || st.picked.len() >= size || st.queue.len() == 0 {
        st
    } else {
        run_sample(ps, pos, size, expand_head(ps, pos, size, st), (fuel - 1) as nat)
    }
}

/// The run starts with the seed product taken and the last product of its
/// ASIN queued.
pub open spec fn seed_state(ps: Seq<ProductView>, pos: Map<Seq<char>, int>, s: int) -> SampleState {
    SampleState { picked: seq![s], queue: seq![pos[ps[s].asin]], seen: set![ps[s].asin] }
}

/// The end of the run grown from product `s` (it ends within as many rounds
/// as there are products).
pub open spec fn grown_sample(ps: Seq<ProductView>, size: nat, s: int) -> SampleState {
    let pos = last_positions(asins_of(ps));
    run_sample(ps, pos, size, seed_state(ps, pos, s), ps.len() + 1)
}

/// The positions, in order, of the products whose ASIN is not in `seen`.
pub open spec fn unseen_positions(ps: Seq<ProductView>, seen: Set<Seq<char>>) -> Seq<int> {
    Seq::new(ps.len(), |i: int| i).filter(|i: int| !seen.contains(ps[i].asin))
}

/// A fill of `want` more products from `pool`: nothing when none is wanted;
/// all of the pool, in order, when it holds no more than wanted; otherwise
/// `want` of its entries, each taken at most as often as it occurs.
pub open spec fn is_fill(pool: Seq<int>, fill: Seq<int>, want: int) -> bool {
    if want <= 0 {
        fill.len() == 0
    } else if pool.len() <= want {
        fill == pool
    } else {
        &&& fill.len() == want
        &&& fill.to_multiset().subset_of(pool.to_multiset())
    }
}

/// Some product has a non-empty co-purchase list.
pub open spec fn has_seed(ps: Seq<ProductView>) -> bool {
    exists|i: int| 0 <= i < ps.len() && #[trigger] ps[i].similar.len() > 0
}

/// `out` is a sample of `size` products grown from seed `s` and filled up.
pub open spec fn is_sample_from(ps: Seq<ProductView>, size: nat, s: int, out: Seq<ProductView>) -> bool {
    let run = grown_sample(ps, size, s);
    exists|fill: Seq<int>|
        #[trigger] is_fill(unseen_positions(ps, run.seen), fill, size - run.picked.len())
            && out == (run.picked + fill).map_values(|i: int| ps[i])
}

/// Why no sample could be drawn.
#[derive(Debug, PartialEq, Eq, Structural)]
pub enum SampleError {
    /// No product has a co-purchase entry to grow a sample from.
    NoConnectedProducts,
}

/// `SliceRandom::choose`: one entry of `pool` at random (none when it is
/// empty). Which entry comes back is left to chance and is not stated.
#[verifier::external_body]
fn choose_one(pool: &Vec<usize>) -> (c: Option<usize>)
    ensures
        pool@.len() == 0 ==> c is None,
        pool@.len() > 0 ==> c is Some && pool@.contains(c.unwrap()),
{
    pool.choose(&mut rand::thread_rng()).copied()
}

/// `IteratorRandom::choose_multiple` over the entries of `pool`: all of
/// them, in order, when there are no more than `amount`; otherwise `amount`
/// of them at random, each as often as at most it occurs in `pool`. Which
/// entries, and in which order, is left to chance and is not stated.
#[verifier::external_body]
pub(crate) fn choose_some(pool: Vec<usize>, amount: usize) -> (picked: Vec<usize>)
    ensures
        pool@.len() <= amount ==> picked@ == pool@,
        amount < pool@.len() ==> picked@.len() == amount && as_ints(picked@).to_multiset().subset_of(
            as_ints(pool@).to_multiset(),
        ),
        forall|k: int| 0 <= k < picked@.len() ==> pool@.contains(#[trigger] picked@[k]),
{
    pool.into_iter().choose_multiple(&mut rand::thread_rng(), amount)
}

/// The ASINs whose last product is marked in `included`.
pub open spec fn marked(pos: Map<Seq<char>, int>, included: Seq<bool>) -> Set<Seq<char>> {
    Set::new(|x: Seq<char>| pos.contains_key(x) && 0 <= pos[x] < included.len() && included[pos[x]])
}

/// The run that the working values describe (the queue starts at `head`).
pub open spec fn state_of(
    pos: Map<Seq<char>, int>,
    picked: Seq<usize>,
    queue: Seq<usize>,
    head: int,
    included: Seq<bool>,
) -> SampleState {
    SampleState { picked: as_ints(picked), queue: as_ints(queue).skip(head), seen: marked(pos, included) }
}

/// The working values of a run are consistent: every taken position is a
/// product whose ASIN is marked, no position is taken twice, and each taken
/// position was queued.
pub open spec fn grow_ok(
    ps: Seq<ProductView>,
    picked: Seq<usize>,
    queue: Seq<usize>,
    included: Seq<bool>,
) -> bool {
    let pos = last_positions(asins_of(ps));
    &&& queue.len() == picked.len()
    &&& included.len() == ps.len()
    &&& as_ints(picked).no_duplicates()
    &&& forall|k: int|
        0 <= k < picked.len() ==> #[trigger] picked[k] < ps.len() && marked(pos, included).contains(
            ps[picked[k] as int].asin,
        )
    &&& forall|k: int| 0 <= k < queue.len() ==> #[trigger] queue[k] < ps.len()
    &&& forall|a: int, b: int|
        0 <= a < b < picked.len() ==> ps[#[trigger] picked[a] as int].asin != ps[#[trigger] picked[b] as int].asin
}

/// The position of the last product that carries `asin`, if one does.
fn last_position(positions: &StringHashMap<usize>, asin: &String) -> (p: Option<usize>)
    ensures
        p is Some <==> positions@.contains_key(asin@),
        p is Some ==> p.unwrap() == positions@[asin@],
{
    match positions.get(asin.as_str()) {
        Some(p) => Some(*p),
        None => None,
    }
}

/// Follows one co-purchase entry of the run.
fn follow_entry(
    products: &[Product],
    positions: &StringHashMap<usize>,
    size: usize,
    picked: &mut Vec<usize>,
    queue: &mut Vec<usize>,
    included: &mut Vec<bool>,
    entry: &String,
    Ghost(head): Ghost<int>,
)
    requires
        positions_match(positions@, last_positions(asins_of(product_views(products@)))),
        grow_ok(product_views(products@), old(picked)@, old(queue)@, old(included)@),
        0 <= head <= old(queue)@.len(),
    ensures
        grow_ok(product_views(products@), final(picked)@, final(queue)@, final(included)@),
        final(queue)@.len() >= old(queue)@.len(),
        state_of(
            last_positions(asins_of(product_views(products@))),
            final(picked)@,
            final(queue)@,
            head,
            final(included)@,
        ) == take_entry(
            last_positions(asins_of(product_views(products@))),
            size as nat,
            state_of(
                last_positions(asins_of(product_views(products@))),
                old(picked)@,
                old(queue)@,
                head,
                old(included)@,
            ),
            entry@,
        ),
{
    let ghost ps = product_views(products@);
    let ghost keys = asins_of(ps);
    let ghost pos = last_positions(keys);
    let ghost st = state_of(pos, picked@, queue@, head, included@);
    proof {
        lemma_last_positions(keys);
    }
    if picked.len() >= size {
        return;
    }
    match last_position(positions, entry) {
        None => {},
        Some(p) => {
            proof {
                assert(pos.contains_key(entry@));
                assert(keys[p as int] == ps[p as int].asin);
            }
            if !included[p] {
                let ghost old_picked = picked@;
                let ghost old_queue = queue@;
                let ghost old_included = included@;
                included.set(p, true);
                picked.push(p);
                queue.push(p);
                proof {
                    assert(marked(pos, included@) =~= st.seen.insert(entry@)) by {
                        assert forall|x: Seq<char>| #[trigger] marked(pos, included@).contains(x)
                            == st.seen.insert(entry@).contains(x) by {
                            if pos.contains_key(x) && x != entry@ {
                                assert(keys[pos[x]] == x);
                            }
                        }
                    }
                    assert(as_ints(picked@) =~= as_ints(old_picked).push(p as int));
                    assert(as_ints(queue@).skip(head) =~= as_ints(old_queue).skip(head).push(
                        p as int,
                    ));
                    assert forall|k: int| 0 <= k < old_picked.len() implies as_ints(old_picked)[k]
                        != p as int by {
                        assert(marked(pos, old_included).contains(ps[old_picked[k] as int].asin));
                    }
                    assert(as_ints(picked@).no_duplicates()) by {
                        assert forall|a: int, b: int|
                            0 <= a < as_ints(picked@).len() && 0 <= b < as_ints(picked@).len() && a
                                != b implies as_ints(picked@)[a] != as_ints(picked@)[b] by {
                            if a < old_picked.len() && b < old_picked.len() {
                                assert(as_ints(old_picked)[a] != as_ints(old_picked)[b]);
                            }
                        }
                    }
                    assert forall|k: int| 0 <= k < picked@.len() implies #[trigger] picked@[k]
                        < ps.len() && marked(pos, included@).contains(ps[picked@[k] as int].asin) by {
                        if k < old_picked.len() {
                            assert(picked@[k] == old_picked[k]);
                            assert(marked(pos, old_included).contains(ps[old_picked[k] as int].asin));
                        }
                    }
                    assert forall|k: int| 0 <= k < queue@.len() implies #[trigger] queue@[k] < ps.len() by {
                        if k < old_queue.len() {
                            assert(queue@[k] == old_queue[k]);
                        }
                    }
                    assert forall|a: int, b: int| 0 <= a < b < picked@.len() implies ps[#[trigger] picked@[a] as int].asin
                        != ps[#[trigger] picked@[b] as int].asin by {
                        assert(picked@[a] == old_picked[a]);
                        if b < old_picked.len() {
                            assert(picked@[b] == old_picked[b]);
                        } else {
                            assert(marked(pos, old_included).contains(ps[old_picked[a] as int].asin));
                            assert(ps[picked@[b] as int].asin == entry@);
                        }
                    }
                }
            } else {
                proof {
                    assert(st.seen.contains(entry@));
                }
            }
        },
    }
}

/// Grows the sample from product `seed`: the positions of the products
/// taken, and for each product position whether its ASIN was taken.
fn grow(products: &[Product], size: usize, seed: usize) -> (res: (Vec<usize>, Vec<bool>))
    requires
        seed < products@.len(),
    ensures
        as_ints(res.0@) == grown_sample(product_views(products@), size as nat, seed as int).picked,
        marked(last_positions(asins_of(product_views(products@))), res.1@) == grown_sample(
            product_views(products@),
            size as nat,
            seed as int,
        ).seen,
        res.1@.len() == products@.len(),
        forall|k: int| 0 <= k < res.0@.len() ==> #[trigger] res.0@[k] < products@.len(),
        forall|a: int, b: int|
            0 <= a < b < res.0@.len() ==> products@[#[trigger] res.0@[a] as int].asin@
                != products@[#[trigger] res.0@[b] as int].asin@,
{
    let ghost ps = product_views(products@);
    let ghost keys = asins_of(ps);
    let ghost pos = last_positions(keys);
    let n = products.len();
    let positions = asin_positions(products);
    proof {
        lemma_last_positions(keys);
        assert(keys[seed as int] == ps[seed as int].asin);
    }
    let mut included: Vec<bool> = vec![false; n];
    let sp = match last_position(&positions, &products[seed].asin) {
        Some(p) => p,
        None => seed,
    };
    included.set(sp, true);
    let mut picked: Vec<usize> = vec![seed];
    let mut queue: Vec<usize> = vec![sp];
    let mut head: usize = 0;
    proof {
        let init = seed_state(ps, pos, seed as int);
        assert(as_ints(picked@) =~= init.picked);
        assert(as_ints(queue@).skip(0) =~= init.queue);
        assert(marked(pos, included@) =~= init.seen) by {
            assert forall|x: Seq<char>| #[trigger] marked(pos, included@).contains(x)
                == init.seen.contains(x) by {
                if pos.contains_key(x) && x != ps[seed as int].asin {
                    assert(keys[pos[x]] == x);
                }
            }
        }
        assert(as_ints(picked@).no_duplicates());
        assert(marked(pos, included@).contains(ps[picked@[0] as int].asin));
    }
    while picked.len() < size && head < queue.len()
        invariant
            ps == product_views(products@),
            keys == asins_of(ps),
            pos == last_positions(keys),
            n == ps.len(),
            positions_match(positions@, pos),
            grow_ok(ps, picked@, queue@, included@),
            head <= queue@.len(),
            picked@.len() <= n,
            run_sample(ps, pos, size as nat, state_of(pos, picked@, queue@, head as int, included@), (n + 1 - head) as nat)
                == grown_sample(ps, size as nat, seed as int),
        decreases n - head,
    {
        let ghost st0 = state_of(pos, picked@, queue@, head as int, included@);
        let q = queue[head];
        head += 1;
        let ghost popped = state_of(pos, picked@, queue@, head as int, included@);
        proof {
            assert(popped =~= SampleState { picked: st0.picked, queue: st0.queue.drop_first(), seen: st0.seen });
            assert(st0.queue[0] == q as int);
        }
        let list = &products[q].similar;
        proof {
            assert(list.deep_view() == ps[q as int].similar);
        }
        for j in 0..list.len()
            invariant
                ps == product_views(products@),
                keys == asins_of(ps),
                pos == last_positions(keys),
                n == ps.len(),
                positions_match(positions@, pos),
                grow_ok(ps, picked@, queue@, included@),
                1 <= head <= queue@.len(),
                list.deep_view() == ps[q as int].similar,
                state_of(pos, picked@, queue@, head as int, included@) == take_entries(
                    pos,
                    size as nat,
                    popped,
                    ps[q as int].similar,
                    j as int,
                ),
        {
            follow_entry(products, &positions, size, &mut picked, &mut queue, &mut included, &list[j], Ghost(head as int));
            proof {
                assert(list.deep_view()[j as int] == list@[j as int]@);
            }
        }
        proof {
            lemma_distinct_below(as_ints(picked@), n as int);
        }
    }
    proof {
        let fin = state_of(pos, picked@, queue@, head as int, included@);
        assert(fin.queue.len() == queue@.len() - head);
    }
    (picked, included)
}

/// The positions, in order, of the products whose ASIN `included` does not
/// mark.
fn unmarked_positions(products: &[Product], included: &Vec<bool>) -> (pool: Vec<usize>)
    requires
        included@.len() == products@.len(),
    ensures
        as_ints(pool@) == unseen_positions(
            product_views(products@),
            marked(last_positions(asins_of(product_views(products@))), included@),
        ),
        forall|k: int| 0 <= k < pool@.len() ==> #[trigger] pool@[k] < products@.len(),
{
    let ghost ps = product_views(products@);
    let ghost keys = asins_of(ps);
    let ghost pos = last_positions(keys);
    let ghost seen = marked(pos, included@);
    let ghost test = |i: int| !seen.contains(ps[i].asin);
    let positions = asin_positions(products);
    proof {
        lemma_last_positions(keys);
    }
    let mut pool: Vec<usize> = Vec::new();
    for i in 0..products.len()
        invariant
            ps == product_views(products@),
            keys == asins_of(ps),
            pos == last_positions(keys),
            seen == marked(pos, included@),
            test == (|i: int| !seen.contains(ps[i].asin)),
            included@.len() == ps.len(),
            positions_match(positions@, pos),
            as_ints(pool@) == Seq::new(i as nat, |k: int| k).filter(test),
            forall|k: int| 0 <= k < pool@.len() ==> #[trigger] pool@[k] < i,
    {
        proof {
            assert(keys[i as int] == products@[i as int].asin@);
            assert(Seq::new(i as nat + 1, |k: int| k) =~= Seq::new(i as nat, |k: int| k).push(i as int));
            Seq::new(i as nat, |k: int| k).lemma_filter_push(i as int, test);
        }
        let ghost before = pool@;
        let ghost a = products@[i as int].asin@;
        proof {
            lemma_last_positions(keys);
            assert(ps[i as int].asin == a);
            assert(keys[i as int] == a);
            assert(pos.contains_key(a));
        }
        match last_position(&positions, &products[i].asin) {
            Some(p) => {
                proof {
                    assert(p as int == pos[a]);
                    assert(0 <= pos[a] < keys.len());
                    assert(test(i as int) == !included@[p as int]);
                }
                if !included[p] {
                    pool.push(i);
                    proof {
                        assert(as_ints(pool@) =~= as_ints(before).push(i as int));
                    }
                }
                proof {
                    assert forall|k: int| 0 <= k < pool@.len() implies #[trigger] pool@[k] < i + 1 by {
                        if k < before.len() {
                            assert(pool@[k] == before[k]);
                        }
                    }
                }
            },
            None => {},
        }
    }
    pool
}

/// Copies of the products at the given positions, in order.
fn products_at(products: &[Product], at: &Vec<usize>) -> (out: Vec<Product>)
    requires
        forall|k: int| 0 <= k < at@.len() ==> #[trigger] at@[k] < products@.len(),
    ensures
        product_views(out@) == as_ints(at@).map_values(|i: int| product_views(products@)[i]),
{
    let mut out: Vec<Product> = Vec::new();
    for k in 0..at.len()
        invariant
            forall|j: int| 0 <= j < at@.len() ==> #[trigger] at@[j] < products@.len(),
            product_views(out@) == as_ints(at@.take(k as int)).map_values(|i: int| product_views(products@)[i]),
    {
        let ghost before = out@;
        out.push(products[at[k]].duplicate());
        proof {
            assert(at@.take(k + 1) =~= at@.take(k as int).push(at@[k as int]));
            assert(product_views(out@) =~= product_views(before).push(products@[at@[k as int] as int]@));
            assert(as_ints(at@.take(k + 1)) =~= as_ints(at@.take(k as int)).push(at@[k as int] as int));
        }
    }
    proof {
        assert(at@.take(at@.len() as int) =~= at@);
    }
    out
}

/// The products at the positions `picked` and then at the positions `fill`.
fn join_products(products: &[Product], picked: Vec<usize>, fill: &Vec<usize>) -> (out: Vec<Product>)
    requires
        forall|k: int| 0 <= k < picked@.len() ==> #[trigger] picked@[k] < products@.len(),
        forall|k: int| 0 <= k < fill@.len() ==> #[trigger] fill@[k] < products@.len(),
    ensures
        product_views(out@) == (as_ints(picked@) + as_ints(fill@)).map_values(
            |i: int| product_views(products@)[i],
        ),
{
    let mut picked = picked;
    let ghost grown = picked@;
    for k in 0..fill.len()
        invariant
            picked@ == grown + fill@.take(k as int),
            forall|j: int| 0 <= j < fill@.len() ==> #[trigger] fill@[j] < products@.len(),
            forall|j: int| 0 <= j < grown.len() ==> #[trigger] grown[j] < products@.len(),
    {
        picked.push(fill[k]);
        proof {
            assert(fill@.take(k + 1) =~= fill@.take(k as int).push(fill@[k as int]));
            assert(grown + fill@.take(k + 1) =~= (grown + fill@.take(k as int)).push(fill@[k as int]));
        }
    }
    proof {
        assert(fill@.take(fill@.len() as int) =~= fill@);
        assert(as_ints(grown + fill@) =~= as_ints(grown) + as_ints(fill@));
        assert forall|j: int| 0 <= j < picked@.len() implies #[trigger] picked@[j] < products@.len() by {
            if j < grown.len() {
                assert(picked@[j] == grown[j]);
            } else {
                assert(picked@[j] == fill@[j - grown.len()]);
            }
        }
    }
    products_at(products, &picked)
}

/// The positions of the products that a sample grown from product `seed`
/// takes, up to `size` of them, in the order in which they are taken; no
/// two of them carry one ASIN.
pub fn grow_sample(products: &[Product], size: usize, seed: usize) -> (picked: Vec<usize>)
    requires
        seed < products@.len(),
    ensures
        as_ints(picked@) == grown_sample(product_views(products@), size as nat, seed as int).picked,
        forall|a: int, b: int|
            0 <= a < b < picked@.len() ==> products@[#[trigger] picked@[a] as int].asin@
                != products@[#[trigger] picked@[b] as int].asin@,
{
    let (picked, _) = grow(products, size, seed);
    picked
}

/// The positions, in order, of the products whose ASIN a sample grown from
/// product `seed` does not take: what a short sample is filled up from.
pub fn fill_candidates(products: &[Product], size: usize, seed: usize) -> (pool: Vec<usize>)
    requires
        seed < products@.len(),
    ensures
        as_ints(pool@) == unseen_positions(
            product_views(products@),
            grown_sample(product_views(products@), size as nat, seed as int).seen,
        ),
{
    let (_, included) = grow(products, size, seed);
    unmarked_positions(products, &included)
}

/// The sample grown from product `seed` and filled up with the products at
/// the positions `fill`.
pub fn sample_with(products: &[Product], size: usize, seed: usize, fill: &Vec<usize>) -> (out: Vec<
    Product,
>)
    requires
        seed < products@.len(),
        forall|k: int| 0 <= k < fill@.len() ==> #[trigger] fill@[k] < products@.len(),
    ensures
        product_views(out@) == (grown_sample(product_views(products@), size as nat, seed as int).picked
            + as_ints(fill@)).map_values(|i: int| product_views(products@)[i]),
{
    let (picked, _) = grow(products, size, seed);
    join_products(products, picked, fill)
}

/// Draws a connected sample of `sample_size` products: from a product with a
/// co-purchase entry, chosen at random, the sample grows along co-purchase
/// entries; when it stays short, it is filled up with products, chosen at
/// random, whose ASIN it did not take. It fails when no product has a
/// co-purchase entry.
pub fn sample_products(products: &[Product], sample_size: usize) -> (r: Result<
    Vec<Product>,
    SampleError,
>)
    ensures
        r is Err <==> !has_seed(product_views(products@)),
        match r {
            Ok(v) => exists|s: int|
                0 <= s < products@.len() && #[trigger] product_views(products@)[s].similar.len() > 0
                    && is_sample_from(product_views(products@), sample_size as nat, s, product_views(v@)),
            Err(e) => e == SampleError::NoConnectedProducts,
        },
{
    let ghost ps = product_views(products@);
    let mut candidates: Vec<usize> = Vec::new();
    for i in 0..products.len()
        invariant
            ps == product_views(products@),
            forall|k: int| 0 <= k < candidates@.len() ==> #[trigger] candidates@[k] < products@.len()
                && ps[candidates@[k] as int].similar.len() > 0,
            forall|k: int| 0 <= k < i && #[trigger] ps[k].similar.len() > 0 ==> candidates@.contains(k as usize),
    {
        proof {
            assert(products@[i as int].similar.deep_view().len() == products@[i as int].similar@.len());
        }
        let ghost before = candidates@;
        if products[i].similar.len() > 0 {
            candidates.push(i);
            proof {
                assert(candidates@[candidates@.len() - 1] == i);
                assert forall|k: int| 0 <= k < i && #[trigger] ps[k].similar.len() > 0 implies candidates@.contains(k as usize) by {
                    let w = choose|w: int| 0 <= w < before.len() && before[w] == k as usize;
                    assert(candidates@[w] == before[w]);
                }
            }
        }
    }
    let seed = match choose_one(&candidates) {
        Some(s) => s,
        None => {
            proof {
                if has_seed(ps) {
                    let k = choose|k: int| 0 <= k < ps.len() && #[trigger] ps[k].similar.len() > 0;
                    assert(candidates@.contains(k as usize));
                }
            }
            return Err(SampleError::NoConnectedProducts);
        },
    };
    proof {
        let k = choose|k: int| 0 <= k < candidates@.len() && candidates@[k] == seed;
        assert(ps[seed as int].similar.len() > 0);
    }
    let (picked, included) = grow(products, sample_size, seed);
    let ghost run = grown_sample(ps, sample_size as nat, seed as int);
    let fill: Vec<usize> = if picked.len() < sample_size {
        let pool = unmarked_positions(products, &included);
        let ghost pool_view = pool@;
        let chosen = choose_some(pool, sample_size - picked.len());
        proof {
            assert forall|k: int| 0 <= k < chosen@.len() implies #[trigger] chosen@[k] < products@.len() by {
                assert(pool_view.contains(chosen@[k]));
                let w = choose|w: int| 0 <= w < pool_view.len() && pool_view[w] == chosen@[k];
            }
            if pool_view.len() <= sample_size - picked.len() {
                assert(as_ints(chosen@) == as_ints(pool_view));
            }
            assert(is_fill(unseen_positions(ps, run.seen), as_ints(chosen@), sample_size - run.picked.len()));
        }
        chosen
    } else {
        let empty: Vec<usize> = Vec::new();
        proof {
            assert(is_fill(unseen_positions(ps, run.seen), as_ints(empty@), sample_size - run.picked.len()));
        }
        empty
    };
    let out = join_products(products, picked, &fill);
    proof {
        assert(is_sample_from(ps, sample_size as nat, seed as int, product_views(out@)));
    }
    Ok(out)
}

} // verus!

verus! {

/// The larger of `size` and 1.
pub open spec fn at_least_one(size: nat) -> nat {
    if size >= 1 {
        size
    } else {
        1
    }
}

/// Following entries keeps what was taken and takes nothing once `size`
/// products are taken.
proof fn lemma_take_entries_grow(pos: Map<Seq<char>, int>, size: nat, st: SampleState, list: Seq<Seq<char>>, j: int)
    requires
        1 <= st.picked.len() <= at_least_one(size),
    ensures
        take_entries(pos, size, st, list, j).picked.len() <= at_least_one(size),
        take_entries(pos, size, st, list, j).picked.len() >= 1,
        take_entries(pos, size, st, list, j).picked[0] == st.picked[0],
    decreases j,
{
    if j > 0 {
        lemma_take_entries_grow(pos, size, st, list, j - 1);
    }
}

proof fn lemma_run_grow(ps: Seq<ProductView>, pos: Map<Seq<char>, int>, size: nat, st: SampleState, fuel: nat)
    requires
        1 <= st.picked.len() <= at_least_one(size),
    ensures
        run_sample(ps, pos, size, st, fuel).picked.len() <= at_least_one(size),
        run_sample(ps, pos, size, st, fuel).picked.len() >= 1,
        run_sample(ps, pos, size, st, fuel).picked[0] == st.picked[0],
    decreases fuel,
{
    if fuel > 0 && st.picked.len() < size && st.queue.len() > 0 {
        let q = st.queue[0];
        let popped = SampleState { picked: st.picked, queue: st.queue.drop_first(), seen: st.seen };
        lemma_take_entries_grow(pos, size, popped, ps[q].similar, ps[q].similar.len() as int);
        lemma_run_grow(ps, pos, size, expand_head(ps, pos, size, st), (fuel - 1) as nat);
    }
}

/// A drawn sample starts with its seed product and holds at most
/// `sample_size` products (one, the seed, when `sample_size` is 0).
pub proof fn lemma_sample_bounds(ps: Seq<ProductView>, size: nat, s: int, out: Seq<ProductView>)
    requires
        0 <= s < ps.len(),
        is_sample_from(ps, size, s, out),
    ensures
        out.len() <= at_least_one(size),
        out.len() >= 1,
        out[0] == ps[s],
{
    let pos = last_positions(asins_of(ps));
    let run = grown_sample(ps, size, s);
    lemma_run_grow(ps, pos, size, seed_state(ps, pos, s), ps.len() + 1);
    let fill = choose|fill: Seq<int>|
        #[trigger] is_fill(unseen_positions(ps, run.seen), fill, size - run.picked.len())
            && out == (run.picked + fill).map_values(|i: int| ps[i]);
    let pool = unseen_positions(ps, run.seen);
    let want = size - run.picked.len();
    assert(fill.len() <= if want <= 0 { 0 } else { want });
    assert((run.picked + fill)[0] == run.picked[0]);
}

} // verus!

verus! {

/// Each known ASIN sits at a position of a product that carries it.
pub open spec fn pos_ok(ps: Seq<ProductView>, pos: Map<Seq<char>, int>) -> bool {
    forall|x: Seq<char>| #[trigger] pos.contains_key(x) ==> 0 <= pos[x] < ps.len() && ps[pos[x]].asin == x
}

/// Some taken product carries the ASIN `x`.
pub open spec fn taken(ps: Seq<ProductView>, picked: Seq<int>, x: Seq<char>) -> bool {
    exists|k: int| 0 <= k < picked.len() && ps[#[trigger] picked[k]].asin == x
}

/// Every known ASIN on the co-purchase list of (the last product of) `x`
/// is in `seen`.
pub open spec fn follows_all(ps: Seq<ProductView>, pos: Map<Seq<char>, int>, seen: Set<Seq<char>>, x: Seq<char>) -> bool {
    forall|j: int|
        0 <= j < ps[pos[x]].similar.len() && pos.contains_key(ps[pos[x]].similar[j]) ==> seen.contains(
            #[trigger] ps[pos[x]].similar[j],
        )
}

/// The bookkeeping of a run holds: taken products are products whose ASINs
/// are seen and distinct, every seen ASIN is taken and known, and every
/// queued position is that of a seen ASIN.
pub open spec fn run_ok(ps: Seq<ProductView>, pos: Map<Seq<char>, int>, st: SampleState) -> bool {
    &&& forall|k: int|
        0 <= k < st.picked.len() ==> 0 <= #[trigger] st.picked[k] < ps.len() && st.seen.contains(
            ps[st.picked[k]].asin,
        )
    &&& forall|x: Seq<char>| #[trigger] st.seen.contains(x) ==> pos.contains_key(x) && taken(ps, st.picked, x)
    &&& forall|a: int, b: int|
        0 <= a < b < st.picked.len() ==> ps[#[trigger] st.picked[a]].asin != ps[#[trigger] st.picked[b]].asin
    &&& forall|k: int|
        0 <= k < st.queue.len() ==> st.seen.contains(ps[#[trigger] st.queue[k]].asin) && pos[ps[st.queue[k]].asin]
            == st.queue[k]
}

/// While the run is short, every seen ASIN is still queued or its list has
/// been followed.
pub open spec fn run_closed(ps: Seq<ProductView>, pos: Map<Seq<char>, int>, size: nat, st: SampleState) -> bool {
    st.picked.len() < size ==> forall|x: Seq<char>|
        #[trigger] st.seen.contains(x) ==> st.queue.contains(pos[x]) || follows_all(ps, pos, st.seen, x)
}

/// How `b` extends `a`: it keeps what `a` took and queued, and queues each
/// newly seen ASIN.
pub open spec fn extends(pos: Map<Seq<char>, int>, a: SampleState, b: SampleState) -> bool {
    &&& b.picked.len() >= a.picked.len()
    &&& b.queue.len() >= a.queue.len()
    &&& b.picked.len() - a.picked.len() == b.queue.len() - a.queue.len()
    &&& forall|k: int| 0 <= k < a.picked.len() ==> b.picked[k] == #[trigger] a.picked[k]
    &&& forall|k: int| 0 <= k < a.queue.len() ==> b.queue[k] == #[trigger] a.queue[k]
    &&& forall|x: Seq<char>| #[trigger] a.seen.contains(x) ==> b.seen.contains(x)
    &&& forall|x: Seq<char>| #[trigger] b.seen.contains(x) && !a.seen.contains(x) ==> b.queue.contains(pos[x])
}

proof fn lemma_take_entry(ps: Seq<ProductView>, pos: Map<Seq<char>, int>, size: nat, st: SampleState, s: Seq<char>)
    requires
        pos_ok(ps, pos),
        run_ok(ps, pos, st),
    ensures
        run_ok(ps, pos, take_entry(pos, size, st, s)),
        extends(pos, st, take_entry(pos, size, st, s)),
        take_entry(pos, size, st, s).picked.len() < size && pos.contains_key(s) ==> take_entry(
            pos,
            size,
            st,
            s,
        ).seen.contains(s),
{
    let st2 = take_entry(pos, size, st, s);
    if !(st.picked.len() >= size || st.seen.contains(s) || !pos.contains_key(s)) {
        let p = pos[s];
        assert(ps[p].asin == s);
        assert forall|k: int| 0 <= k < st2.picked.len() implies 0 <= #[trigger] st2.picked[k] < ps.len()
            && st2.seen.contains(ps[st2.picked[k]].asin) by {
            if k < st.picked.len() {
                assert(st2.picked[k] == st.picked[k]);
            }
        }
        assert forall|x: Seq<char>| #[trigger] st2.seen.contains(x) implies pos.contains_key(x) && taken(
            ps,
            st2.picked,
            x,
        ) by {
            if x == s {
                assert(st2.picked[st.picked.len() as int] == p);
            } else {
                let k = choose|k: int| 0 <= k < st.picked.len() && ps[#[trigger] st.picked[k]].asin == x;
                assert(st2.picked[k] == st.picked[k]);
            }
        }
        assert forall|a: int, b: int| 0 <= a < b < st2.picked.len() implies ps[#[trigger] st2.picked[a]].asin
            != ps[#[trigger] st2.picked[b]].asin by {
            assert(st2.picked[a] == st.picked[a]);
            if b < st.picked.len() {
                assert(st2.picked[b] == st.picked[b]);
            } else {
                assert(st.seen.contains(ps[st.picked[a]].asin));
            }
        }
        assert forall|k: int| 0 <= k < st2.queue.len() implies st2.seen.contains(ps[#[trigger] st2.queue[k]].asin)
            && pos[ps[st2.queue[k]].asin] == st2.queue[k] by {
            if k < st.queue.len() {
                assert(st2.queue[k] == st.queue[k]);
            }
        }
        assert forall|x: Seq<char>| #[trigger] st2.seen.contains(x) && !st.seen.contains(x) implies st2.queue.contains(
            pos[x],
        ) by {
            assert(x == s);
            assert(st2.queue[st.queue.len() as int] == p);
        }
    }
}

proof fn lemma_take_entries(
    ps: Seq<ProductView>,
    pos: Map<Seq<char>, int>,
    size: nat,
    st: SampleState,
    list: Seq<Seq<char>>,
    j: int,
)
    requires
        pos_ok(ps, pos),
        run_ok(ps, pos, st),
        0 <= j <= list.len(),
    ensures
        run_ok(ps, pos, take_entries(pos, size, st, list, j)),
        extends(pos, st, take_entries(pos, size, st, list, j)),
        take_entries(pos, size, st, list, j).picked.len() < size ==> forall|t: int|
            0 <= t < j && pos.contains_key(list[t]) ==> take_entries(pos, size, st, list, j).seen.contains(
                #[trigger] list[t],
            ),
    decreases j,
{
    if j > 0 {
        lemma_take_entries(ps, pos, size, st, list, j - 1);
        let mid = take_entries(pos, size, st, list, j - 1);
        lemma_take_entry(ps, pos, size, mid, list[j - 1]);
        let fin = take_entries(pos, size, st, list, j);
        assert forall|k: int| 0 <= k < st.picked.len() implies fin.picked[k] == #[trigger] st.picked[k] by {
            assert(mid.picked[k] == st.picked[k]);
        }
        assert forall|k: int| 0 <= k < st.queue.len() implies fin.queue[k] == #[trigger] st.queue[k] by {
            assert(mid.queue[k] == st.queue[k]);
        }
        assert forall|x: Seq<char>| #[trigger] fin.seen.contains(x) && !st.seen.contains(x) implies fin.queue.contains(
            pos[x],
        ) by {
            if mid.seen.contains(x) {
                let k = choose|k: int| 0 <= k < mid.queue.len() && mid.queue[k] == pos[x];
                assert(fin.queue[k] == mid.queue[k]);
            }
        }
        assert forall|x: Seq<char>| #[trigger] st.seen.contains(x) implies fin.seen.contains(x) by {
            assert(mid.seen.contains(x));
        }
        if fin.picked.len() < size {
            assert forall|t: int| 0 <= t < j && pos.contains_key(list[t]) implies fin.seen.contains(#[trigger] list[t]) by {
                if t < j - 1 {
                    assert(mid.seen.contains(list[t]));
                }
            }
        }
    }
}

proof fn lemma_expand(ps: Seq<ProductView>, pos: Map<Seq<char>, int>, size: nat, st: SampleState)
    requires
        pos_ok(ps, pos),
        run_ok(ps, pos, st),
        run_closed(ps, pos, size, st),
        st.picked.len() < size,
        st.queue.len() > 0,
    ensures
        run_ok(ps, pos, expand_head(ps, pos, size, st)),
        run_closed(ps, pos, size, expand_head(ps, pos, size, st)),
        expand_head(ps, pos, size, st).queue.len() + (ps.len() - expand_head(ps, pos, size, st).picked.len())
            == st.queue.len() + (ps.len() - st.picked.len()) - 1,
{
    let q = st.queue[0];
    let x0 = ps[q].asin;
    assert(st.seen.contains(x0) && pos[x0] == q);
    let popped = SampleState { picked: st.picked, queue: st.queue.drop_first(), seen: st.seen };
    assert(run_ok(ps, pos, popped)) by {
        assert forall|k: int| 0 <= k < popped.queue.len() implies popped.seen.contains(
            ps[#[trigger] popped.queue[k]].asin,
        ) && pos[ps[popped.queue[k]].asin] == popped.queue[k] by {
            assert(popped.queue[k] == st.queue[k + 1]);
        }
    }
    let list = ps[q].similar;
    lemma_take_entries(ps, pos, size, popped, list, list.len() as int);
    let fin = expand_head(ps, pos, size, st);
    assert(fin == take_entries(pos, size, popped, list, list.len() as int));
    if fin.picked.len() < size {
        assert forall|x: Seq<char>| #[trigger] fin.seen.contains(x) implies fin.queue.contains(pos[x]) || follows_all(
            ps,
            pos,
            fin.seen,
            x,
        ) by {
            if st.seen.contains(x) {
                assert(pos.contains_key(x));
                if x == x0 {
                    assert(pos[x] == q);
                    assert forall|j: int|
                        0 <= j < ps[pos[x]].similar.len() && pos.contains_key(ps[pos[x]].similar[j]) implies fin.seen.contains(
                            #[trigger] ps[pos[x]].similar[j],
                        ) by {
                        assert(list[j] == ps[pos[x]].similar[j]);
                    }
                } else if st.queue.contains(pos[x]) {
                    let k = choose|k: int| 0 <= k < st.queue.len() && st.queue[k] == pos[x];
                    if k == 0 {
                        assert(ps[pos[x]].asin == x);
                        assert(ps[pos[x0]].asin == x0);
                    } else {
                        assert(popped.queue[k - 1] == st.queue[k]);
                        assert(fin.queue[k - 1] == popped.queue[k - 1]);
                    }
                } else {
                    assert(follows_all(ps, pos, st.seen, x));
                    assert forall|j: int|
                        0 <= j < ps[pos[x]].similar.len() && pos.contains_key(ps[pos[x]].similar[j]) implies fin.seen.contains(
                            #[trigger] ps[pos[x]].similar[j],
                        ) by {
                        assert(st.seen.contains(ps[pos[x]].similar[j]));
                    }
                }
            }
        }
    }
}

/// The taken positions are distinct product positions, so there are at
/// most as many as products.
proof fn lemma_picked_bound(ps: Seq<ProductView>, pos: Map<Seq<char>, int>, st: SampleState)
    requires
        run_ok(ps, pos, st),
    ensures
        st.picked.len() <= ps.len(),
{
    assert(st.picked.no_duplicates()) by {
        assert forall|a: int, b: int| 0 <= a < st.picked.len() && 0 <= b < st.picked.len() && a != b implies st.picked[a]
            != st.picked[b] by {
            if a < b {
                assert(ps[st.picked[a]].asin != ps[st.picked[b]].asin);
            } else {
                assert(ps[st.picked[b]].asin != ps[st.picked[a]].asin);
            }
        }
    }
    lemma_distinct_below(st.picked, ps.len() as int);
}

proof fn lemma_run(ps: Seq<ProductView>, pos: Map<Seq<char>, int>, size: nat, st: SampleState, fuel: nat)
    requires
        pos_ok(ps, pos),
        run_ok(ps, pos, st),
        run_closed(ps, pos, size, st),
        fuel >= st.queue.len() + (ps.len() - st.picked.len()),
    ensures
        run_ok(ps, pos, run_sample(ps, pos, size, st, fuel)),
        run_closed(ps, pos, size, run_sample(ps, pos, size, st, fuel)),
        run_sample(ps, pos, size, st, fuel).picked.len() >= size || run_sample(ps, pos, size, st, fuel).queue.len()
            == 0,
    decreases fuel,
{
    lemma_picked_bound(ps, pos, st);
    if !(fuel == 0 || st.picked.len() >= size || st.queue.len() == 0) {
        lemma_expand(ps, pos, size, st);
        lemma_run(ps, pos, size, expand_head(ps, pos, size, st), (fuel - 1) as nat);
    }
}

/// A grown sample is closed under co-purchase: when it holds fewer than
/// `size` products, every known ASIN on the co-purchase list of (the last
/// product of) each taken ASIN is taken too. So growing stops short only
/// when the whole part of the network reachable from the seed is taken.
pub proof fn lemma_sample_closed(ps: Seq<ProductView>, size: nat, s: int)
    requires
        0 <= s < ps.len(),
    ensures
        ({
            let run = grown_sample(ps, size, s);
            let pos = last_positions(asins_of(ps));
            run.picked.len() < size ==> forall|k: int, j: int|
                0 <= k < run.picked.len() && 0 <= j < ps[pos[ps[run.picked[k]].asin]].similar.len()
                    && pos.contains_key(#[trigger] ps[pos[ps[#[trigger] run.picked[k]].asin]].similar[j])
                    ==> taken(ps, run.picked, ps[pos[ps[run.picked[k]].asin]].similar[j])
        }),
{
    let keys = asins_of(ps);
    let pos = last_positions(keys);
    lemma_last_positions(keys);
    assert(pos_ok(ps, pos)) by {
        assert forall|x: Seq<char>| #[trigger] pos.contains_key(x) implies 0 <= pos[x] < ps.len() && ps[pos[x]].asin == x by {
            assert(keys[pos[x]] == ps[pos[x]].asin);
        }
    }
    let init = seed_state(ps, pos, s);
    assert(keys[s] == ps[s].asin);
    assert(pos.contains_key(ps[s].asin));
    assert(run_ok(ps, pos, init)) by {
        assert forall|x: Seq<char>| #[trigger] init.seen.contains(x) implies pos.contains_key(x) && taken(
            ps,
            init.picked,
            x,
        ) by {
            assert(init.picked[0] == s);
        }
        assert forall|k: int| 0 <= k < init.queue.len() implies init.seen.contains(ps[#[trigger] init.queue[k]].asin)
            && pos[ps[init.queue[k]].asin] == init.queue[k] by {
            assert(init.seen.contains(ps[s].asin));
        }
    }
    assert(run_closed(ps, pos, size, init)) by {
        assert forall|x: Seq<char>| #[trigger] init.seen.contains(x) implies init.queue.contains(pos[x]) || follows_all(
            ps,
            pos,
            init.seen,
            x,
        ) by {
            assert(init.queue[0] == pos[x]);
        }
    }
    lemma_run(ps, pos, size, init, ps.len() + 1);
    let run = grown_sample(ps, size, s);
    if run.picked.len() < size {
        assert forall|k: int, j: int|
            0 <= k < run.picked.len() && 0 <= j < ps[pos[ps[run.picked[k]].asin]].similar.len()
                && pos.contains_key(#[trigger] ps[pos[ps[#[trigger] run.picked[k]].asin]].similar[j]) implies taken(
            ps,
            run.picked,
            ps[pos[ps[run.picked[k]].asin]].similar[j],
        ) by {
            let x = ps[run.picked[k]].asin;
            assert(run.seen.contains(x));
            assert(!run.queue.contains(pos[x]));
            assert(follows_all(ps, pos, run.seen, x));
            assert(run.seen.contains(ps[pos[x]].similar[j]));
        }
    }
}

} // verus!
