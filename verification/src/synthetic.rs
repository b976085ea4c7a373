//! A synthetic data set with guaranteed co-purchase links, for trying the
//! analysis without the real data.
//!
//! Product `i` has the ASIN "A" followed by `i` in eight zero-padded decimal
//! digits, the title "Product i", one of five categories, a sales rank below
//! 100000 and fewer than 100 reviews, all drawn at random. Its co-purchase
//! list names two to four other products, drawn at random without
//! repetition (all the others when there are fewer). Prices and ratings are
//! decimal numbers and are left to the caller.

use crate::graph::as_ints;
use crate::meta::{all_digits, chars_to_string, digits_value, is_digit, u64_of, unsigned_digits, usize_of};
use crate::product::{Product, ProductView, product_views};
use crate::sample::choose_some;
use rand::Rng;
use vstd::prelude::*;

verus! {

/// The character of the decimal digit `d`.
pub open spec fn digit(d: int) -> char {
    (d + 48) as char
}

/// The decimal digits of `n`, most significant first.
pub open spec fn decimal(n: nat) -> Seq<char>
    decreases n,
{
    if n < 10 {
        seq![digit(n as int)]
    } else {
        decimal(n / 10).push(digit((n % 10) as int))
    }
}

/// `s` with zeros added on the left up to `width` characters.
pub open spec fn zero_padded(s: Seq<char>, width: nat) -> Seq<char> {
    if s.len() >= width {
        s
    } else {
        Seq::new((width - s.len()) as nat, |k: int| '0') + s
    }
}

/// The ASIN of synthetic product `i`.
pub open spec fn synthetic_asin(i: nat) -> Seq<char> {
    seq!['A'] + zero_padded(decimal(i), 8)
}

/// The title of synthetic product `i`.
pub open spec fn synthetic_title(i: nat) -> Seq<char> {
    seq!['P', 'r', 'o', 'd', 'u', 'c', 't', ' '] + decimal(i)
}

/// The five categories that synthetic products are put in.
pub open spec fn category_names() -> Seq<Seq<char>> {
    seq!["Books"@, "Electronics"@, "Clothing"@, "Movies & TV"@, "Music"@]
}

/// Synthetic product `i` in category `category`, with the given sales rank
/// and number of reviews, before its co-purchase links are drawn.
pub open spec fn synthetic_view(i: nat, category: int, sales_rank: u64, review_count: usize) -> ProductView {
    ProductView {
        asin: synthetic_asin(i),
        title: Some(synthetic_title(i)),
        categories: seq![seq![category_names()[category]]],
        price: None,
        sales_rank: Some(sales_rank),
        avg_rating: None,
        review_count,
        similar: Seq::empty(),
    }
}

/// The co-purchase list that the draws `picks` give product `i` among
/// products with ASINs `asins`: each drawn product other than `i` whose ASIN
/// is not yet listed, in the order drawn.
pub open spec fn links_from_draws(asins: Seq<Seq<char>>, i: int, picks: Seq<int>) -> Seq<Seq<char>>
    decreases picks.len(),
{
    if picks.len() == 0 {
        Seq::empty()
    } else {
        let prev = links_from_draws(asins, i, picks.drop_last());
        let o = picks.last();
        if o != i && !prev.contains(asins[o]) {
            prev.push(asins[o])
        } else {
            prev
        }
    }
}

proof fn lemma_decimal_value(n: nat)
    ensures
        digits_value(decimal(n)) == n,
    decreases n,
{
    if n < 10 {
        let s = decimal(n);
        assert(s.drop_last() =~= Seq::<char>::empty());
        assert(digit(n as int) as int == n + 48);
        assert(s.last() == digit(n as int));
        assert(digits_value(s.drop_last()) == 0);
        assert(digits_value(s) == digits_value(s.drop_last()) * 10 + (s.last() as int - 48));
    } else {
        lemma_decimal_value(n / 10);
        assert(decimal(n).drop_last() =~= decimal(n / 10));
        let d = (n % 10) as int;
        assert(digit(d) as int == d + 48);
        assert(decimal(n).last() == digit(d));
        assert(n == (n / 10) * 10 + n % 10);
        let s = decimal(n);
        assert(digits_value(s) == digits_value(s.drop_last()) * 10 + (s.last() as int - 48));
    }
}

proof fn lemma_leading_zeros(k: nat, s: Seq<char>)
    ensures
        digits_value(Seq::new(k, |i: int| '0') + s) == digits_value(s),
    decreases s.len(), k,
{
    let zeros = Seq::new(k, |i: int| '0');
    if s.len() > 0 {
        lemma_leading_zeros(k, s.drop_last());
        assert((zeros + s).drop_last() =~= zeros + s.drop_last());
    } else if k > 0 {
        lemma_leading_zeros((k - 1) as nat, s);
        assert((zeros + s).drop_last() =~= Seq::new((k - 1) as nat, |i: int| '0') + s);
        assert((zeros + s).last() == '0');
    } else {
        assert(zeros + s =~= s);
    }
}

/// Different product numbers give different synthetic ASINs.
proof fn lemma_synthetic_asin_injective(a: nat, b: nat)
    requires
        synthetic_asin(a) == synthetic_asin(b),
    ensures
        a == b,
{
    lemma_decimal_value(a);
    lemma_decimal_value(b);
    let pa = zero_padded(decimal(a), 8);
    let pb = zero_padded(decimal(b), 8);
    assert(synthetic_asin(a).drop_first() =~= pa);
    assert(synthetic_asin(b).drop_first() =~= pb);
    if decimal(a).len() < 8 {
        lemma_leading_zeros((8 - decimal(a).len()) as nat, decimal(a));
    }
    if decimal(b).len() < 8 {
        lemma_leading_zeros((8 - decimal(b).len()) as nat, decimal(b));
    }
}

/// The decimal digits of `n`.
fn decimal_text(n: usize) -> (v: Vec<char>)
    ensures
        v@ == decimal(n as nat),
    decreases n,
{
    let d = (n % 10) as u8 + 48;
    let c = d as char;
    proof {
        assert(c == digit((n % 10) as int));
    }
    if n < 10 {
        let mut v: Vec<char> = Vec::new();
        v.push(c);
        proof {
            assert(v@ =~= decimal(n as nat));
        }
        v
    } else {
        let mut v = decimal_text(n / 10);
        v.push(c);
        v
    }
}

/// The ASIN of synthetic product `i`: "A" and the decimal digits of `i`,
/// padded on the left with zeros to eight.
fn format_asin(i: usize) -> (s: String)
    ensures
        s@ == synthetic_asin(i as nat),
{
    let digits = decimal_text(i);
    let mut v: Vec<char> = Vec::new();
    v.push('A');
    let mut k = digits.len();
    while k < 8
        invariant
            digits@.len() <= k <= 8 || (k == digits@.len() && k > 8),
            v@ == seq!['A'] + Seq::new((k - digits@.len()) as nat, |j: int| '0'),
        decreases 8 - k,
    {
        v.push('0');
        proof {
            assert(v@ =~= seq!['A'] + Seq::new((k + 1 - digits@.len()) as nat, |j: int| '0'));
        }
        k = k + 1;
    }
    for j in 0..digits.len()
        invariant
            v@ == seq!['A'] + Seq::new((k - digits@.len()) as nat, |j: int| '0') + digits@.take(j as int),
    {
        proof {
            assert(digits@.take(j + 1) =~= digits@.take(j as int).push(digits@[j as int]));
        }
        v.push(digits[j]);
    }
    proof {
        assert(digits@.take(digits@.len() as int) =~= digits@);
        if digits@.len() >= 8 {
            assert(Seq::new((k - digits@.len()) as nat, |j: int| '0') =~= Seq::<char>::empty());
            assert(v@ =~= seq!['A'] + digits@);
        } else {
            assert(v@ =~= seq!['A'] + (Seq::new((8 - digits@.len()) as nat, |j: int| '0') + digits@));
        }
    }
    chars_to_string(&v)
}

/// The title of synthetic product `i`: "Product " and the decimal digits of
/// `i`.
fn format_title(i: usize) -> (s: String)
    ensures
        s@ == synthetic_title(i as nat),
{
    let digits = decimal_text(i);
    let mut v: Vec<char> = Vec::new();
    v.push('P');
    v.push('r');
    v.push('o');
    v.push('d');
    v.push('u');
    v.push('c');
    v.push('t');
    v.push(' ');
    for j in 0..digits.len()
        invariant
            v@ == seq!['P', 'r', 'o', 'd', 'u', 'c', 't', ' '] + digits@.take(j as int),
    {
        proof {
            assert(digits@.take(j + 1) =~= digits@.take(j as int).push(digits@[j as int]));
        }
        v.push(digits[j]);
    }
    proof {
        assert(digits@.take(digits@.len() as int) =~= digits@);
    }
    chars_to_string(&v)
}

/// `Rng::gen_range` over `lo..hi` with the thread's generator: a number from
/// `lo` up to, not including, `hi` (which one is left to chance and is not
/// stated; the range must not be empty).
#[verifier::external_body]
fn random_in(lo: usize, hi: usize) -> (r: usize)
    requires
        lo < hi,
    ensures
        lo <= r < hi,
{
    rand::thread_rng().gen_range(lo..hi)
}

/// `r` is a number that a draw from `lo` up to, not including, `hi` can
/// give (a result of `random_in(lo, hi)`).
pub closed spec fn drawable(lo: usize, hi: usize, r: usize) -> bool {
    call_ensures(random_in, (lo, hi), r)
}

/// A drawn number lies in the range it was drawn from.
pub proof fn lemma_drawable_range(lo: usize, hi: usize, r: usize)
    requires
        drawable(lo, hi, r),
    ensures
        lo <= r < hi,
{
}

/// Synthetic product `i` in category `category` (one of five), with the
/// given sales rank and number of reviews, and no co-purchase entries yet.
pub fn synthetic_product(i: usize, category: usize, sales_rank: u64, review_count: usize) -> (p: Product)
    requires
        category < 5,
    ensures
        p@ == synthetic_view(i as nat, category as int, sales_rank, review_count),
{
    let names: Vec<String> = vec![
        "Books".to_owned(),
        "Electronics".to_owned(),
        "Clothing".to_owned(),
        "Movies & TV".to_owned(),
        "Music".to_owned(),
    ];
    let name = names[category].clone();
    let path: Vec<String> = vec![name];
    let categories: Vec<Vec<String>> = vec![path];
    let p = Product {
        asin: format_asin(i),
        title: Some(format_title(i)),
        categories,
        price: None,
        sales_rank: Some(sales_rank),
        avg_rating: None,
        review_count,
        similar: Vec::new(),
    };
    proof {
        assert(names.deep_view() =~= category_names());
        assert(p.categories.deep_view() =~= seq![seq![category_names()[category as int]]]) by {
            assert(p.categories@[0].deep_view() =~= seq![category_names()[category as int]]);
        }
        assert(p.similar.deep_view() =~= Seq::<Seq<char>>::empty());
    }
    p
}

/// Whether `list` holds a string equal to `s`.
fn lists(list: &Vec<String>, s: &String) -> (found: bool)
    ensures
        found == list.deep_view().contains(s@),
{
    for k in 0..list.len()
        invariant
            !list.deep_view().take(k as int).contains(s@),
    {
        proof {
            assert(list.deep_view().take(k + 1) =~= list.deep_view().take(k as int).push(list@[k as int]@));
        }
        if list[k] == *s {
            proof {
                assert(list.deep_view()[k as int] == s@);
            }
            return true;
        }
    }
    proof {
        assert(list.deep_view().take(list.len() as int) =~= list.deep_view());
    }
    false
}

/// The co-purchase list that the draws `picks` give product `i` among
/// products with ASINs `asins` (see `links_from_draws`).
pub fn co_purchase_links(asins: &Vec<String>, i: usize, picks: &Vec<usize>) -> (similar: Vec<String>)
    requires
        forall|k: int| 0 <= k < picks@.len() ==> #[trigger] picks@[k] < asins@.len(),
    ensures
        similar.deep_view() == links_from_draws(asins.deep_view(), i as int, as_ints(picks@)),
{
    let mut similar: Vec<String> = Vec::new();
    for k in 0..picks.len()
        invariant
            forall|j: int| 0 <= j < picks@.len() ==> #[trigger] picks@[j] < asins@.len(),
            similar.deep_view() == links_from_draws(asins.deep_view(), i as int, as_ints(picks@.take(k as int))),
    {
        let o = picks[k];
        proof {
            assert(as_ints(picks@.take(k + 1)).drop_last() =~= as_ints(picks@.take(k as int)));
            assert(as_ints(picks@.take(k + 1)).last() == o as int);
        }
        if o != i && !lists(&similar, &asins[o]) {
            let ghost before = similar.deep_view();
            similar.push(asins[o].clone());
            proof {
                assert(similar.deep_view() =~= before.push(asins.deep_view()[o as int]));
            }
        }
    }
    proof {
        assert(picks@.take(picks@.len() as int) =~= picks@);
    }
    similar
}

/// What holds of every co-purchase list drawn for product `i` of `n`: two
/// to four entries (all the other products when there are fewer than two),
/// no two equal, each the ASIN of another product.
pub open spec fn drawn_links_ok(similar: Seq<Seq<char>>, i: int, n: int) -> bool {
    &&& similar.len() <= 4
    &&& similar.len() >= if n - 1 < 2 {
        n - 1
    } else {
        2
    }
    &&& similar.no_duplicates()
    &&& forall|k: int|
        0 <= k < similar.len() ==> exists|j: nat|
            j < n && j != i && #[trigger] similar[k] == #[trigger] synthetic_asin(j)
}

/// The drawn fields of a synthetic product come from draws over their whole
/// ranges: its category from a draw over the five names, its sales rank
/// from a draw over 1 to 99999, its number of reviews from a draw over 0 to
/// 99.
pub open spec fn drawn_fields(p: ProductView) -> bool {
    &&& exists|c: usize| #[trigger] drawable(0, 5, c) && p.categories[0][0] == category_names()[c as int]
    &&& exists|r: usize| #[trigger] drawable(1, 100000, r) && p.sales_rank == Some(r as u64)
    &&& drawable(0, 100, p.review_count)
}

/// A co-purchase list of product `i` of `n` has as many entries as a draw
/// over 2 to 4 gives, or all the other products when there are fewer.
pub open spec fn drawn_link_count(len: int, n: int) -> bool {
    exists|c: usize| #[trigger] drawable(2, 5, c) && len == if c < n - 1 {
        c as int
    } else {
        n - 1
    }
}

/// What holds of every synthetic product `i` of `n`: its ASIN and title
/// follow from `i`; it is in one of the five categories; its sales rank is
/// from 1 to 99999 and it has fewer than 100 reviews; it has no price or
/// rating; and its co-purchase list is as `drawn_links_ok` says, so it
/// never lists the product's own ASIN. Its category, rank, number of reviews
/// and number of co-purchase entries come from draws over their whole ranges.
pub open spec fn is_synthetic(p: ProductView, i: int, n: int) -> bool {
    &&& p.asin == synthetic_asin(i as nat)
    &&& p.title == Some(synthetic_title(i as nat))
    &&& p.categories.len() == 1
    &&& p.categories[0].len() == 1
    &&& category_names().contains(p.categories[0][0])
    &&& p.price is None
    &&& p.avg_rating is None
    &&& p.sales_rank is Some
    &&& 1 <= p.sales_rank.unwrap() < 100000
    &&& p.review_count < 100
    &&& drawn_links_ok(p.similar, i, n)
    &&& !p.similar.contains(p.asin)
    &&& drawn_fields(p)
    &&& drawn_link_count(p.similar.len() as int, n)
}

/// The entries of a drawn list are the ASINs of drawn products other than
/// `i`, none twice, and there are no more of them than draws.
proof fn lemma_links_from_draws(asins: Seq<Seq<char>>, i: int, picks: Seq<int>)
    ensures
        links_from_draws(asins, i, picks).len() <= picks.len(),
        links_from_draws(asins, i, picks).no_duplicates(),
        forall|k: int|
            0 <= k < links_from_draws(asins, i, picks).len() ==> exists|w: int|
                0 <= w < picks.len() && picks[w] != i && #[trigger] links_from_draws(asins, i, picks)[k]
                    == asins[picks[w]],
    decreases picks.len(),
{
    if picks.len() > 0 {
        let rest = picks.drop_last();
        lemma_links_from_draws(asins, i, rest);
        let prev = links_from_draws(asins, i, rest);
        let cur = links_from_draws(asins, i, picks);
        assert forall|k: int| 0 <= k < cur.len() implies exists|w: int|
            0 <= w < picks.len() && picks[w] != i && #[trigger] cur[k] == asins[picks[w]] by {
            if k < prev.len() {
                let w = choose|w: int|
                    0 <= w < rest.len() && rest[w] != i && #[trigger] prev[k] == asins[rest[w]];
                assert(picks[w] == rest[w]);
                assert(cur[k] == prev[k]);
            } else {
                assert(cur[k] == asins[picks.last()]);
                assert(picks[picks.len() - 1] == picks.last());
            }
        }
    }
}

/// The positions `0..n` other than `i`, in order.
fn other_positions(n: usize, i: usize) -> (others: Vec<usize>)
    requires
        i < n,
    ensures
        others@.len() == n - 1,
        as_ints(others@).no_duplicates(),
        forall|k: int| 0 <= k < others@.len() ==> #[trigger] others@[k] < n && others@[k] != i,
{
    let mut others: Vec<usize> = Vec::new();
    for j in 0..n
        invariant
            i < n,
            others@.len() == if j <= i { j as int } else { j - 1 },
            forall|k: int| 0 <= k < others@.len() ==> #[trigger] others@[k] < j && others@[k] != i,
            forall|a: int, b: int| 0 <= a < b < others@.len() ==> others@[a] < others@[b],
    {
        if j != i {
            others.push(j);
        }
    }
    proof {
        assert forall|a: int, b: int|
            0 <= a < as_ints(others@).len() && 0 <= b < as_ints(others@).len() && a != b implies as_ints(
            others@,
        )[a] != as_ints(others@)[b] by {
            if a < b {
                assert(others@[a] < others@[b]);
            } else {
                assert(others@[b] < others@[a]);
            }
        }
    }
    others
}

/// Draws from a pool of distinct positions other than `i` are distinct,
/// other than `i`, and as many as wanted (the whole pool when it is smaller).
proof fn lemma_distinct_picks(pool: Seq<usize>, picks: Seq<usize>, count: usize, i: usize, n: usize)
    requires
        as_ints(pool).no_duplicates(),
        pool.len() == n - 1,
        forall|k: int| 0 <= k < pool.len() ==> #[trigger] pool[k] < n && pool[k] != i,
        pool.len() <= count ==> picks == pool,
        count < pool.len() ==> picks.len() == count && as_ints(picks).to_multiset().subset_of(
            as_ints(pool).to_multiset(),
        ),
        forall|k: int| 0 <= k < picks.len() ==> pool.contains(#[trigger] picks[k]),
    ensures
        as_ints(picks).no_duplicates(),
        picks.len() == if count < n - 1 { count as int } else { n - 1 },
        forall|k: int| 0 <= k < picks.len() ==> #[trigger] picks[k] < n && picks[k] != i,
{
    broadcast use vstd::seq_lib::group_to_multiset_ensures;

    assert forall|k: int| 0 <= k < picks.len() implies #[trigger] picks[k] < n && picks[k] != i by {
        let w = choose|w: int| 0 <= w < pool.len() && pool[w] == picks[k];
    }
    if count < pool.len() {
        as_ints(pool).lemma_multiset_has_no_duplicates();
        let mp = as_ints(pool).to_multiset();
        let mk = as_ints(picks).to_multiset();
        assert forall|x: int| mk.contains(x) implies mk.count(x) == 1 by {
            assert(mk.count(x) <= mp.count(x));
            assert(mp.contains(x));
        }
        as_ints(picks).lemma_multiset_has_no_duplicates_conv();
    }
}

/// Draws of distinct products other than `i`, with distinct ASINs, are all
/// listed.
proof fn lemma_all_links_kept(asins: Seq<Seq<char>>, i: int, picks: Seq<int>)
    requires
        picks.no_duplicates(),
        forall|k: int| 0 <= k < picks.len() ==> #[trigger] picks[k] != i,
        forall|a: int, b: int|
            0 <= a < picks.len() && 0 <= b < picks.len() && a != b ==> asins[#[trigger] picks[a]]
                != asins[#[trigger] picks[b]],
    ensures
        links_from_draws(asins, i, picks).len() == picks.len(),
    decreases picks.len(),
{
    if picks.len() > 0 {
        let rest = picks.drop_last();
        assert forall|a: int, b: int|
            0 <= a < rest.len() && 0 <= b < rest.len() && a != b implies asins[#[trigger] rest[a]]
                != asins[#[trigger] rest[b]] by {
            assert(rest[a] == picks[a] && rest[b] == picks[b]);
        }
        assert forall|k: int| 0 <= k < rest.len() implies #[trigger] rest[k] != i by {
            assert(rest[k] == picks[k]);
        }
        lemma_all_links_kept(asins, i, rest);
        lemma_links_from_draws(asins, i, rest);
        let prev = links_from_draws(asins, i, rest);
        let o = picks.last();
        assert(picks[picks.len() - 1] == o);
        if prev.contains(asins[o]) {
            let k = choose|k: int| 0 <= k < prev.len() && prev[k] == asins[o];
            let w = choose|w: int| 0 <= w < rest.len() && rest[w] != i && #[trigger] prev[k] == asins[rest[w]];
            assert(rest[w] == picks[w]);
            assert(false);
        }
    }
}

/// Draws `size` synthetic products (see the module documentation) with
/// random categories, sales ranks, review counts and co-purchase lists.
pub fn generate_synthetic_dataset(size: usize) -> (products: Vec<Product>)
    ensures
        products@.len() == size,
        forall|i: int| 0 <= i < size ==> #[trigger] is_synthetic(product_views(products@)[i], i, size as int),
{
    let mut base: Vec<Product> = Vec::new();
    let mut asins: Vec<String> = Vec::new();
    for i in 0..size
        invariant
            base@.len() == i,
            asins@.len() == i,
            forall|k: int| 0 <= k < i ==> #[trigger] asins@[k]@ == synthetic_asin(k as nat),
            forall|k: int| 0 <= k < i ==> {
                let p = #[trigger] base@[k]@;
                &&& p.asin == synthetic_asin(k as nat)
                &&& p.title == Some(synthetic_title(k as nat))
                &&& p.categories.len() == 1
                &&& p.categories[0].len() == 1
                &&& category_names().contains(p.categories[0][0])
                &&& p.price is None
                &&& p.avg_rating is None
                &&& p.sales_rank is Some
                &&& 1 <= p.sales_rank.unwrap() < 100000
                &&& p.review_count < 100
                &&& drawn_fields(p)
            },
    {
        let category = random_in(0, 5);
        let rank = random_in(1, 100000);
        let reviews = random_in(0, 100);
        let p = synthetic_product(i, category, rank as u64, reviews);
        proof {
            assert(category_names()[category as int] == p@.categories[0][0]);
            assert(drawable(0, 5, category));
            assert(drawable(1, 100000, rank));
            assert(drawable(0, 100, reviews));
            assert(drawn_fields(p@));
        }
        asins.push(p.asin.clone());
        base.push(p);
    }
    let mut products: Vec<Product> = Vec::new();
    for i in 0..size
        invariant
            base@.len() == size,
            asins@.len() == size,
            products@.len() == i,
            forall|k: int| 0 <= k < size ==> #[trigger] asins@[k]@ == synthetic_asin(k as nat),
            forall|k: int| 0 <= k < size ==> {
                let p = #[trigger] base@[k]@;
                &&& p.asin == synthetic_asin(k as nat)
                &&& p.title == Some(synthetic_title(k as nat))
                &&& p.categories.len() == 1
                &&& p.categories[0].len() == 1
                &&& category_names().contains(p.categories[0][0])
                &&& p.price is None
                &&& p.avg_rating is None
                &&& p.sales_rank is Some
                &&& 1 <= p.sales_rank.unwrap() < 100000
                &&& p.review_count < 100
                &&& drawn_fields(p)
            },
            forall|k: int| 0 <= k < i ==> #[trigger] is_synthetic(product_views(products@)[k], k, size as int),
    {
        let count = random_in(2, 5);
        proof {
            assert(drawable(2, 5, count));
        }
        let others = other_positions(size, i);
        let ghost pool = others@;
        let picks = choose_some(others, count);
        proof {
            lemma_distinct_picks(pool, picks@, count, i, size);
        }
        let links = co_purchase_links(&asins, i, &picks);
        let mut p = base[i].duplicate();
        p.similar = links;
        proof {
            let ints = as_ints(picks@);
            lemma_links_from_draws(asins.deep_view(), i as int, ints);
            assert forall|a: int, b: int| 0 <= a < ints.len() && 0 <= b < ints.len() && a != b implies asins.deep_view()[
                #[trigger] ints[a]] != asins.deep_view()[#[trigger] ints[b]] by {
                assert(asins.deep_view()[ints[a]] == asins@[ints[a]]@);
                assert(asins.deep_view()[ints[b]] == asins@[ints[b]]@);
                if asins.deep_view()[ints[a]] == asins.deep_view()[ints[b]] {
                    lemma_synthetic_asin_injective(ints[a] as nat, ints[b] as nat);
                }
            }
            lemma_all_links_kept(asins.deep_view(), i as int, ints);
            let l = links_from_draws(asins.deep_view(), i as int, ints);
            assert forall|k: int| 0 <= k < l.len() implies exists|j: nat|
                j < size && j != i && #[trigger] l[k] == #[trigger] synthetic_asin(j) by {
                let w = choose|w: int| 0 <= w < ints.len() && ints[w] != i && #[trigger] l[k] == asins.deep_view()[ints[w]];
                let j = ints[w] as nat;
                assert(asins.deep_view()[ints[w]] == asins@[ints[w]]@);
                assert(l[k] == synthetic_asin(j));
            }
            assert(p@.similar == l);
            if l.contains(p@.asin) {
                let k = choose|k: int| 0 <= k < l.len() && l[k] == p@.asin;
                let j = choose|j: nat| j < size && j != i && #[trigger] l[k] == #[trigger] synthetic_asin(j);
                lemma_synthetic_asin_injective(j, i as nat);
            }
            assert(is_synthetic(p@, i as int, size as int));
        }
        let ghost before = products@;
        let ghost pv = p@;
        products.push(p);
        proof {
            assert forall|k: int| 0 <= k < i + 1 implies #[trigger] is_synthetic(product_views(products@)[k], k, size as int) by {
                assert(product_views(products@)[k] == products@[k]@);
                if k < i {
                    assert(products@[k] == before[k]);
                    assert(product_views(before)[k] == before[k]@);
                } else {
                    assert(products@[k]@ == pv);
                }
            }
        }
    }
    products
}

} // verus!

verus! {

proof fn lemma_decimal_digits(n: nat)
    ensures
        decimal(n).len() > 0,
        all_digits(decimal(n)),
        decimal(n)[0] != '+',
    decreases n,
{
    if n >= 10 {
        lemma_decimal_digits(n / 10);
        let d = (n % 10) as int;
        assert(digit(d) as int == d + 48);
        assert forall|i: int| 0 <= i < decimal(n).len() implies is_digit(#[trigger] decimal(n)[i]) by {
            if i < decimal(n / 10).len() {
                assert(decimal(n)[i] == decimal(n / 10)[i]);
            }
        }
        assert(decimal(n)[0] == decimal(n / 10)[0]);
    } else {
        assert(digit(n as int) as int == n + 48);
        assert(is_digit(decimal(n)[0]));
    }
}

/// Reading a number back from its decimal digits gives the number: the
/// numeral of every `n` that fits reads as `n`, as `usize::from_str` and
/// `u64::from_str` read it.
pub proof fn lemma_numerals_read_back(n: nat)
    ensures
        n <= usize::MAX ==> usize_of(decimal(n)) == Some(n as usize),
        n <= u64::MAX ==> u64_of(decimal(n)) == Some(n as u64),
{
    lemma_decimal_digits(n);
    lemma_decimal_value(n);
    assert(unsigned_digits(decimal(n)) == decimal(n));
}

} // verus!
