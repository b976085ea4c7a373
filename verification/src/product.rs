//! Products of the co-purchasing data set and lookups by ASIN.

use vstd::hash_map::StringHashMap;
use vstd::prelude::*;

verus! {

/// An Amazon product with its metadata and co-purchasing information.
///
/// Prices and ratings are decimal numbers; they are carried here as the
/// IEEE-754 bit patterns of their `f64` values, and nothing in this library
/// computes with them.
#[derive(Debug, Clone)]
pub struct Product {
    /// Amazon Standard Identification Number.
    pub asin: String,
    /// Product title.
    pub title: Option<String>,
    /// Product categories, each a hierarchical path.
    pub categories: Vec<Vec<String>>,
    /// Product price, as the bits of an `f64`.
    pub price: Option<u64>,
    /// Sales rank (lower is better).
    pub sales_rank: Option<u64>,
    /// Average review rating (1-5), as the bits of an `f64`.
    pub avg_rating: Option<u64>,
    /// Number of reviews.
    pub review_count: usize,
    /// ASINs of co-purchased products.
    pub similar: Vec<String>,
}

/// The mathematical content of a product.
#[verifier::ext_equal]
pub struct ProductView {
    pub asin: Seq<char>,
    pub title: Option<Seq<char>>,
    pub categories: Seq<Seq<Seq<char>>>,
    pub price: Option<u64>,
    pub sales_rank: Option<u64>,
    pub avg_rating: Option<u64>,
    pub review_count: usize,
    pub similar: Seq<Seq<char>>,
}

impl View for Product {
    type V = ProductView;

    open spec fn view(&self) -> ProductView {
        ProductView {
            asin: self.asin@,
            title: self.title.deep_view(),
            categories: self.categories.deep_view(),
            price: self.price,
            sales_rank: self.sales_rank,
            avg_rating: self.avg_rating,
            review_count: self.review_count,
            similar: self.similar.deep_view(),
        }
    }
}

/// The views of a list of products.
pub open spec fn product_views(ps: Seq<Product>) -> Seq<ProductView> {
    ps.map_values(|p: Product| p@)
}

/// The ASINs of a list of products, in order.
pub open spec fn asins_of(ps: Seq<ProductView>) -> Seq<Seq<char>> {
    ps.map_values(|p: ProductView| p.asin)
}

/// For each key, the position of its last occurrence (what a map that is
/// filled in order, each insertion replacing the previous value, holds).
pub open spec fn last_positions(keys: Seq<Seq<char>>) -> Map<Seq<char>, int>
    decreases keys.len(),
{
    if keys.len() == 0 {
        Map::empty()
    } else {
        last_positions(keys.drop_last()).insert(keys.last(), keys.len() - 1)
    }
}

/// A map of positions agrees with a specification map.
pub open spec fn positions_match(m: Map<Seq<char>, usize>, s: Map<Seq<char>, int>) -> bool {
    &&& m.dom() == s.dom()
    &&& forall|k: Seq<char>| #[trigger] m.contains_key(k) ==> m[k] as int == s[k]
}

/// Every key of `last_positions` occurs at its position, and the position is
/// that of the last occurrence.
pub proof fn lemma_last_positions(keys: Seq<Seq<char>>)
    ensures
        forall|k: Seq<char>|
            #[trigger] last_positions(keys).contains_key(k) ==> {
                let i = last_positions(keys)[k];
                &&& 0 <= i < keys.len()
                &&& keys[i] == k
                &&& forall|j: int| i < j < keys.len() ==> keys[j] != k
            },
        forall|i: int| 0 <= i < keys.len() ==> last_positions(keys).contains_key(#[trigger] keys[i]),
    decreases keys.len(),
{
    if keys.len() > 0 {
        lemma_last_positions(keys.drop_last());
        let prev = keys.drop_last();
        assert forall|k: Seq<char>| #[trigger] last_positions(keys).contains_key(k) implies {
            let i = last_positions(keys)[k];
            &&& 0 <= i < keys.len()
            &&& keys[i] == k
            &&& forall|j: int| i < j < keys.len() ==> keys[j] != k
        } by {
            if k != keys.last() {
                assert(last_positions(prev).contains_key(k));
                let i = last_positions(prev)[k];
                assert(forall|j: int| i < j < prev.len() ==> prev[j] == keys[j]);
            }
        }
        assert forall|i: int| 0 <= i < keys.len() implies last_positions(keys).contains_key(
            #[trigger] keys[i],
        ) by {
            if i < keys.len() - 1 {
                assert(keys.drop_last()[i] == keys[i]);
            }
        }
    }
}

impl Product {
    /// A copy of the product.
    pub fn duplicate(&self) -> (r: Product)
        ensures
            r@ == self@,
    {
        let mut categories: Vec<Vec<String>> = Vec::new();
        for i in 0..self.categories.len()
            invariant
                categories@.len() == i,
            categories.deep_view() == self.categories.deep_view().take(i as int),
        {
            let path = copy_strings(&self.categories[i]);
            let ghost before = categories@;
            categories.push(path);
            proof {
                assert forall|j: int| 0 <= j < i + 1 implies #[trigger] categories.deep_view()[j]
                    == self.categories.deep_view().take(i + 1)[j] by {
                    if j < i {
                        assert(categories@[j] == before[j]);
                    }
                }
                assert(categories.deep_view() =~= self.categories.deep_view().take(i + 1));
            }
        }
        proof {
            assert(self.categories.deep_view().take(self.categories.len() as int)
                =~= self.categories.deep_view());
        }
        let title = match &self.title {
            Some(t) => Some(t.clone()),
            None => None,
        };
        Product {
            asin: self.asin.clone(),
            title,
            categories,
            price: self.price,
            sales_rank: self.sales_rank,
            avg_rating: self.avg_rating,
            review_count: self.review_count,
            similar: copy_strings(&self.similar),
        }
    }
}

/// A copy of a list of strings.
pub fn copy_strings(v: &Vec<String>) -> (r: Vec<String>)
    ensures
        r.deep_view() == v.deep_view(),
{
    let mut r: Vec<String> = Vec::new();
    for i in 0..v.len()
        invariant
            r@.len() == i,
            r.deep_view() == v.deep_view().take(i as int),
    {
        let ghost before = r@;
        r.push(v[i].clone());
        proof {
            assert forall|j: int| 0 <= j < i + 1 implies #[trigger] r.deep_view()[j]
                == v.deep_view().take(i + 1)[j] by {
                if j < i {
                    assert(r@[j] == before[j]);
                }
            }
            assert(r.deep_view() =~= v.deep_view().take(i + 1));
        }
    }
    proof {
        assert(v.deep_view().take(v.len() as int) =~= v.deep_view());
    }
    r
}

/// A map from each ASIN to the position of the last product that carries it.
pub fn asin_positions(products: &[Product]) -> (m: StringHashMap<usize>)
    ensures
        positions_match(m@, last_positions(asins_of(product_views(products@)))),
{
    let ghost keys = asins_of(product_views(products@));
    let mut m: StringHashMap<usize> = StringHashMap::new();
    for i in 0..products.len()
        invariant
            keys == asins_of(product_views(products@)),
            positions_match(m@, last_positions(keys.take(i as int))),
    {
        m.insert(products[i].asin.clone(), i);
        proof {
            assert(keys.take(i + 1).drop_last() =~= keys.take(i as int));
            assert(keys.take(i + 1).last() == products@[i as int].asin@);
        }
    }
    proof {
        assert(keys.take(products.len() as int) =~= keys);
    }
    m
}

} // verus!
