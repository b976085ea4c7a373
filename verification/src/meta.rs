//! The Amazon product metadata format.
//!
//! The text is read line by line. A product starts at each line that begins
//! with `ASIN` once trimmed of surrounding white space; its ASIN is the
//! second white-space separated word of that line (empty when there is
//! none). The lines after it, up to the next product, are its attribute
//! lines, recognised by their leading tags (`  title:`, `  salesrank:`,
//! `  similar:`, `   |` for a category path, `  reviews:`; see
//! `read_attribute`). Lines before the first product are skipped.

use crate::product::{Product, ProductView, product_views};
use vstd::prelude::*;

verus! {

/// `char::is_whitespace`: the Unicode `White_Space` property.
pub open spec fn is_ws(c: char) -> bool {
    let u = c as u32;
    ||| 0x9 <= u <= 0xD
    ||| u == 0x20
    ||| u == 0x85
    ||| u == 0xA0
    ||| u == 0x1680
    ||| 0x2000 <= u <= 0x200A
    ||| u == 0x2028
    ||| u == 0x2029
    ||| u == 0x202F
    ||| u == 0x205F
    ||| u == 0x3000
}

/// The lines of a text: the pieces between line feeds. A final line feed
/// leaves an empty last piece, and a carriage return before a line feed stays
/// in its line (trimming removes both).
pub open spec fn segments(t: Seq<char>) -> Seq<Seq<char>>
    decreases t.len(),
{
    if t.len() == 0 {
        seq![Seq::empty()]
    } else {
        let rest = segments(t.drop_last());
        if t.last() == '\n' {
            rest.push(Seq::empty())
        } else {
            rest.update(rest.len() - 1, rest.last().push(t.last()))
        }
    }
}

/// The first position at or after `i` that does not hold white space.
pub open spec fn ws_end(s: Seq<char>, i: int) -> int
    decreases s.len() - i,
{
    if 0 <= i < s.len() && is_ws(s[i]) {
        ws_end(s, i + 1)
    } else {
        i
    }
}

/// The first position at or after `i` that holds white space.
pub open spec fn word_end(s: Seq<char>, i: int) -> int
    decreases s.len() - i,
{
    if 0 <= i < s.len() && !is_ws(s[i]) {
        word_end(s, i + 1)
    } else {
        i
    }
}

/// Going back from `j`, the end of the text once the white space after
/// position `lo` is dropped.
pub open spec fn trail_end(s: Seq<char>, j: int, lo: int) -> int
    decreases j - lo,
{
    if lo < j && j <= s.len() && is_ws(s[j - 1]) {
        trail_end(s, j - 1, lo)
    } else {
        j
    }
}

/// `str::trim`: the text without its leading and trailing white space.
pub open spec fn trim(s: Seq<char>) -> Seq<char> {
    let a = ws_end(s, 0);
    s.subrange(a, trail_end(s, s.len() as int, a))
}

/// `split_whitespace().nth(1).unwrap_or_default()`: the second word of a
/// text, or the empty text.
pub open spec fn second_word(s: Seq<char>) -> Seq<char> {
    let b = ws_end(s, word_end(s, ws_end(s, 0)));
    s.subrange(b, word_end(s, b))
}

/// The text begins with `ASIN`.
pub open spec fn starts_with_asin(s: Seq<char>) -> bool {
    s.len() >= 4 && s[0] == 'A' && s[1] == 'S' && s[2] == 'I' && s[3] == 'N'
}

/// The ASIN that a line introduces, if it starts a product.
pub open spec fn line_asin(line: Seq<char>) -> Option<Seq<char>> {
    let t = trim(line);
    if starts_with_asin(t) {
        Some(second_word(t))
    } else {
        None
    }
}

/// The number that a string of decimal digits spells.
pub open spec fn digits_value(s: Seq<char>) -> int
    decreases s.len(),
{
    if s.len() == 0 {
        0
    } else {
        digits_value(s.drop_last()) * 10 + (s.last() as int - 48)
    }
}

pub proof fn lemma_segments_nonempty(t: Seq<char>)
    ensures
        segments(t).len() >= 1,
    decreases t.len(),
{
    if t.len() > 0 {
        lemma_segments_nonempty(t.drop_last());
    }
}

/// `String::push`: appends one char.
#[verifier::external_body]
fn string_push(s: &mut String, c: char)
    ensures
        final(s)@ == old(s)@.push(c),
{
    s.push(c);
}

/// Whether `c` is white space (`char::is_whitespace`).
fn is_whitespace(c: char) -> (b: bool)
    ensures
        b == is_ws(c),
{
    let u = c as u32;
    (0x9 <= u && u <= 0xD) || u == 0x20 || u == 0x85 || u == 0xA0 || u == 0x1680 || (0x2000 <= u
        && u <= 0x200A) || u == 0x2028 || u == 0x2029 || u == 0x202F || u == 0x205F || u == 0x3000
}

fn skip_ws(s: &Vec<char>, i: usize) -> (r: usize)
    requires
        i <= s.len(),
    ensures
        r as int == ws_end(s@, i as int),
        i <= r <= s.len(),
{
    let mut j = i;
    while j < s.len() && is_whitespace(s[j])
        invariant
            i <= j <= s.len(),
            ws_end(s@, i as int) == ws_end(s@, j as int),
        decreases s.len() - j,
    {
        j = j + 1;
    }
    j
}

fn skip_word(s: &Vec<char>, i: usize) -> (r: usize)
    requires
        i <= s.len(),
    ensures
        r as int == word_end(s@, i as int),
        i <= r <= s.len(),
{
    let mut j = i;
    while j < s.len() && !is_whitespace(s[j])
        invariant
            i <= j <= s.len(),
            word_end(s@, i as int) == word_end(s@, j as int),
        decreases s.len() - j,
    {
        j = j + 1;
    }
    j
}

fn back_ws(s: &Vec<char>, lo: usize) -> (r: usize)
    requires
        lo <= s.len(),
    ensures
        r as int == trail_end(s@, s.len() as int, lo as int),
        lo <= r <= s.len(),
{
    let mut j = s.len();
    while lo < j && is_whitespace(s[j - 1])
        invariant
            lo <= j <= s.len(),
            trail_end(s@, s.len() as int, lo as int) == trail_end(s@, j as int, lo as int),
        decreases j - lo,
    {
        j = j - 1;
    }
    j
}

fn copy_range(s: &Vec<char>, a: usize, b: usize) -> (r: Vec<char>)
    requires
        a <= b <= s.len(),
    ensures
        r@ == s@.subrange(a as int, b as int),
{
    let mut r: Vec<char> = Vec::new();
    let mut k = a;
    while k < b
        invariant
            a <= k <= b,
            b <= s@.len(),
            r@ == s@.subrange(a as int, k as int),
        decreases b - k,
    {
        r.push(s[k]);
        k = k + 1;
    }
    r
}

/// The ASIN that a line introduces, if it starts a product.
fn asin_of_line(line: &Vec<char>) -> (r: Option<String>)
    ensures
        match r {
            Some(a) => line_asin(line@) == Some(a@),
            None => line_asin(line@) is None,
        },
{
    let a = skip_ws(line, 0);
    let e = back_ws(line, a);
    let t = copy_range(line, a, e);
    proof {
        assert(t@ == trim(line@));
    }
    if t.len() >= 4 && t[0] == 'A' && t[1] == 'S' && t[2] == 'I' && t[3] == 'N' {
        let w0 = skip_ws(&t, 0);
        let w1 = skip_word(&t, w0);
        let b = skip_ws(&t, w1);
        let c = skip_word(&t, b);
        let mut asin = String::new();
        let mut k = b;
        while k < c
            invariant
                b <= k <= c <= t.len(),
                asin@ == t@.subrange(b as int, k as int),
            decreases c - k,
        {
            string_push(&mut asin, t[k]);
            proof {
                assert(t@.subrange(b as int, k + 1) =~= t@.subrange(b as int, k as int).push(t@[k as int]));
            }
            k = k + 1;
        }
        Some(asin)
    } else {
        None
    }
}

} // verus!

verus! {

/// The texts held by a list of char vectors.
pub open spec fn texts(w: Seq<Vec<char>>) -> Seq<Seq<char>> {
    w.map_values(|v: Vec<char>| v@)
}

/// `split_whitespace`: the words of a text, in order.
pub open spec fn words(t: Seq<char>) -> Seq<Seq<char>>
    decreases t.len(),
{
    if t.len() == 0 {
        Seq::empty()
    } else {
        let w = words(t.drop_last());
        let c = t.last();
        if is_ws(c) {
            w
        } else if t.len() >= 2 && !is_ws(t[t.len() - 2]) {
            w.update(w.len() - 1, w.last().push(c))
        } else {
            w.push(seq![c])
        }
    }
}

/// `split('|')`: the pieces of a text between bars (one more than bars).
pub open spec fn bar_pieces(t: Seq<char>) -> Seq<Seq<char>>
    decreases t.len(),
{
    if t.len() == 0 {
        seq![Seq::empty()]
    } else {
        let r = bar_pieces(t.drop_last());
        if t.last() == '|' {
            r.push(Seq::empty())
        } else {
            r.update(r.len() - 1, r.last().push(t.last()))
        }
    }
}

/// The pieces, each trimmed, without those left empty.
pub open spec fn kept_trims(ps: Seq<Seq<char>>) -> Seq<Seq<char>>
    decreases ps.len(),
{
    if ps.len() == 0 {
        Seq::empty()
    } else {
        let r = kept_trims(ps.drop_last());
        let q = trim(ps.last());
        if q.len() > 0 {
            r.push(q)
        } else {
            r
        }
    }
}

/// The text begins with `p`.
pub open spec fn starts_with(s: Seq<char>, p: Seq<char>) -> bool {
    p.len() <= s.len() && s.take(p.len() as int) == p
}

/// The tag of a title line.
pub open spec fn title_tag() -> Seq<char> {
    seq![' ', ' ', 't', 'i', 't', 'l', 'e', ':']
}

/// The tag of a sales rank line.
pub open spec fn salesrank_tag() -> Seq<char> {
    seq![' ', ' ', 's', 'a', 'l', 'e', 's', 'r', 'a', 'n', 'k', ':']
}

/// The tag of a co-purchase line.
pub open spec fn similar_tag() -> Seq<char> {
    seq![' ', ' ', 's', 'i', 'm', 'i', 'l', 'a', 'r', ':']
}

/// The tag of a category path line.
pub open spec fn path_tag() -> Seq<char> {
    seq![' ', ' ', ' ', '|']
}

/// The tag of a reviews line.
pub open spec fn reviews_tag() -> Seq<char> {
    seq![' ', ' ', 'r', 'e', 'v', 'i', 'e', 'w', 's', ':']
}

/// The word before the average rating on a reviews line.
pub open spec fn rating_word() -> Seq<char> {
    seq!['r', 'a', 't', 'i', 'n', 'g', ':']
}

/// The word before the number of downloaded reviews on a reviews line.
pub open spec fn downloaded_word() -> Seq<char> {
    seq!['d', 'o', 'w', 'n', 'l', 'o', 'a', 'd', 'e', 'd', ':']
}

/// The digits `0` to `9`.
pub open spec fn is_digit(c: char) -> bool {
    48 <= (c as int) <= 57
}

/// The digits of an unsigned decimal number: the text after an optional `+`.
pub open spec fn unsigned_digits(s: Seq<char>) -> Seq<char> {
    if s.len() > 0 && s[0] == '+' {
        s.drop_first()
    } else {
        s
    }
}

/// Every char of the text is a digit.
pub open spec fn all_digits(d: Seq<char>) -> bool {
    forall|i: int| 0 <= i < d.len() ==> is_digit(#[trigger] d[i])
}

/// The value of an unsigned decimal number: an optional `+` and then one or
/// more digits.
pub open spec fn unsigned_value(s: Seq<char>) -> Option<int> {
    let d = unsigned_digits(s);
    if d.len() > 0 && all_digits(d) {
        Some(digits_value(d))
    } else {
        None
    }
}

/// `u64::from_str`: the value of an unsigned decimal number that fits.
pub open spec fn u64_of(s: Seq<char>) -> Option<u64> {
    match unsigned_value(s) {
        Some(v) => if v <= u64::MAX {
            Some(v as u64)
        } else {
            None
        },
        None => None,
    }
}

/// `usize::from_str`: the value of an unsigned decimal number that fits.
pub open spec fn usize_of(s: Seq<char>) -> Option<usize> {
    match unsigned_value(s) {
        Some(v) => if v <= usize::MAX {
            Some(v as usize)
        } else {
            None
        },
        None => None,
    }
}

/// A text of digits spells at least what each of its beginnings spells.
proof fn lemma_digits_grow(d: Seq<char>, m: int)
    requires
        0 <= m <= d.len(),
        forall|i: int| 0 <= i < d.len() ==> is_digit(#[trigger] d[i]),
    ensures
        0 <= digits_value(d.take(m)) <= digits_value(d),
    decreases d.len(),
{
    if m == d.len() {
        assert(d.take(m) =~= d);
        if d.len() > 0 {
            lemma_digits_grow(d.drop_last(), 0);
            assert(is_digit(d[d.len() - 1]));
        } else {
            assert(d.take(m) =~= Seq::<char>::empty());
        }
    } else {
        let rest = d.drop_last();
        assert forall|i: int| 0 <= i < rest.len() implies is_digit(#[trigger] rest[i]) by {
            assert(rest[i] == d[i]);
        }
        lemma_digits_grow(rest, m);
        assert(rest.take(m) =~= d.take(m));
        assert(is_digit(d[d.len() - 1]));
    }
}

/// The value of an unsigned decimal number in `w`, if it is at most `max`.
fn unsigned_upto(w: &Vec<char>, max: u128) -> (r: Option<u128>)
    requires
        max <= u64::MAX,
    ensures
        match r {
            Some(v) => unsigned_value(w@) == Some(v as int) && v <= max,
            None => unsigned_value(w@) is None || unsigned_value(w@).unwrap() > max,
        },
{
    let start: usize = if w.len() > 0 && w[0] == '+' {
        1
    } else {
        0
    };
    let ghost d = w@.skip(start as int);
    proof {
        if w@.len() > 0 && w@[0] == '+' {
            assert(d =~= w@.drop_first());
        } else {
            assert(d =~= w@);
        }
    }
    if start >= w.len() {
        return None;
    }
    let mut v: u128 = 0;
    let mut k: usize = start;
    proof {
        assert(d.take(0) =~= Seq::<char>::empty());
    }
    while k < w.len()
        invariant
            start <= k <= w@.len(),
            d == w@.skip(start as int),
            d == unsigned_digits(w@),
            d.len() > 0,
            v as int == digits_value(d.take(k - start)),
            v <= max,
            max <= u64::MAX,
            forall|i: int| 0 <= i < k - start ==> is_digit(#[trigger] d[i]),
        decreases w.len() - k,
    {
        let c = w[k];
        proof {
            assert(d[k - start] == c);
        }
        let digit: u128 = match c {
            '0' => 0,
            '1' => 1,
            '2' => 2,
            '3' => 3,
            '4' => 4,
            '5' => 5,
            '6' => 6,
            '7' => 7,
            '8' => 8,
            '9' => 9,
            _ => {
                proof {
                    assert(!is_digit(d[k - start]));
                    assert(!all_digits(d));
                }
                return None;
            },
        };
        proof {
            assert(is_digit(c));
            assert(digit as int == c as int - 48);
            assert(d.take(k + 1 - start).drop_last() =~= d.take(k - start));
            assert(d.take(k + 1 - start).last() == c);
        }
        v = v * 10 + digit;
        k = k + 1;
        if v > max {
            proof {
                if all_digits(d) {
                    lemma_digits_grow(d, k - start);
                }
            }
            return None;
        }
    }
    proof {
        assert(d.take(d.len() as int) =~= d);
    }
    Some(v)
}

/// `u64::from_str`: the value of the text as an unsigned decimal number that
/// fits.
fn parse_u64(w: &Vec<char>) -> (r: Option<u64>)
    ensures
        r == u64_of(w@),
{
    match unsigned_upto(w, 0xffff_ffff_ffff_ffff) {
        Some(v) => Some(v as u64),
        None => None,
    }
}

/// `usize::from_str`: the value of the text as an unsigned decimal number
/// that fits.
fn parse_usize(w: &Vec<char>) -> (r: Option<usize>)
    ensures
        r == usize_of(w@),
{
    match unsigned_upto(w, usize::MAX as u128) {
        Some(v) => Some(v as usize),
        None => None,
    }
}

/// A string holding the given chars.
pub(crate) fn chars_to_string(v: &Vec<char>) -> (s: String)
    ensures
        s@ == v@,
{
    let mut s = String::new();
    for k in 0..v.len()
        invariant
            s@ == v@.take(k as int),
    {
        string_push(&mut s, v[k]);
        proof {
            assert(v@.take(k + 1) =~= v@.take(k as int).push(v@[k as int]));
        }
    }
    proof {
        assert(v@.take(v@.len() as int) =~= v@);
    }
    s
}

/// The text without its leading and trailing white space.
fn trim_chars(v: &Vec<char>) -> (t: Vec<char>)
    ensures
        t@ == trim(v@),
{
    let a = skip_ws(v, 0);
    let e = back_ws(v, a);
    copy_range(v, a, e)
}

/// Whether two texts are equal.
fn same_chars(a: &Vec<char>, b: &Vec<char>) -> (r: bool)
    ensures
        r == (a@ == b@),
{
    if a.len() != b.len() {
        return false;
    }
    for k in 0..a.len()
        invariant
            a@.len() == b@.len(),
            forall|i: int| 0 <= i < k ==> a@[i] == b@[i],
    {
        if a[k] != b[k] {
            return false;
        }
    }
    proof {
        assert(a@ =~= b@);
    }
    true
}

/// Whether `s` begins with `p`.
fn starts_with_chars(s: &Vec<char>, p: &Vec<char>) -> (r: bool)
    ensures
        r == starts_with(s@, p@),
{
    if p.len() > s.len() {
        return false;
    }
    for k in 0..p.len()
        invariant
            p@.len() <= s@.len(),
            forall|i: int| 0 <= i < k ==> s@[i] == p@[i],
    {
        if s[k] != p[k] {
            proof {
                assert(s@.take(p@.len() as int)[k as int] != p@[k as int]);
            }
            return false;
        }
    }
    proof {
        assert(s@.take(p@.len() as int) =~= p@);
    }
    true
}

/// The words of a text.
fn words_of(t: &Vec<char>) -> (w: Vec<Vec<char>>)
    ensures
        texts(w@) == words(t@),
{
    let mut w: Vec<Vec<char>> = Vec::new();
    for k in 0..t.len()
        invariant
            texts(w@) == words(t@.take(k as int)),
            k > 0 && !is_ws(t@[k - 1]) ==> w@.len() >= 1,
    {
        let c = t[k];
        let ghost pre = t@.take(k as int);
        let ghost before = texts(w@);
        proof {
            assert(t@.take(k + 1).drop_last() =~= pre);
            assert(t@.take(k + 1).last() == c);
            if k >= 1 {
                assert(t@.take(k + 1)[k - 1] == t@[k - 1]);
            }
        }
        if is_whitespace(c) {
        } else if k >= 1 && !is_whitespace(t[k - 1]) {
            let last = w.len() - 1;
            let ghost old_text = w@[last as int]@;
            let mut word = copy_range(&w[last], 0, w[last].len());
            proof {
                assert(old_text.subrange(0, old_text.len() as int) =~= old_text);
                assert(before.last() == old_text);
            }
            word.push(c);
            w.set(last, word);
            proof {
                assert(texts(w@) =~= before.update(last as int, before.last().push(c)));
            }
        } else {
            let mut word: Vec<char> = Vec::new();
            word.push(c);
            w.push(word);
            proof {
                assert(texts(w@) =~= before.push(seq![c]));
            }
        }
    }
    proof {
        assert(t@.take(t@.len() as int) =~= t@);
    }
    w
}

/// The pieces of a text between bars.
fn pieces_of(t: &Vec<char>) -> (r: Vec<Vec<char>>)
    ensures
        texts(r@) == bar_pieces(t@),
{
    let mut r: Vec<Vec<char>> = Vec::new();
    r.push(Vec::new());
    proof {
        assert(texts(r@) =~= bar_pieces(t@.take(0)));
    }
    for k in 0..t.len()
        invariant
            texts(r@) == bar_pieces(t@.take(k as int)),
            r@.len() >= 1,
    {
        let c = t[k];
        let ghost before = texts(r@);
        proof {
            assert(t@.take(k + 1).drop_last() =~= t@.take(k as int));
            assert(t@.take(k + 1).last() == c);
        }
        if c == '|' {
            r.push(Vec::new());
            proof {
                assert(texts(r@) =~= before.push(Seq::empty()));
            }
        } else {
            let last = r.len() - 1;
            let ghost old_text = r@[last as int]@;
            let mut piece = copy_range(&r[last], 0, r[last].len());
            proof {
                assert(old_text.subrange(0, old_text.len() as int) =~= old_text);
                assert(before.last() == old_text);
            }
            piece.push(c);
            r.set(last, piece);
            proof {
                assert(texts(r@) =~= before.update(last as int, before.last().push(c)));
            }
        }
    }
    proof {
        assert(t@.take(t@.len() as int) =~= t@);
    }
    r
}

/// The category path of a path line: the pieces after its tag, trimmed,
/// without the empty ones.
fn path_of(raw: &Vec<char>) -> (path: Vec<String>)
    requires
        raw@.len() >= 3,
    ensures
        path.deep_view() == kept_trims(bar_pieces(raw@.skip(3))),
{
    let rest = copy_range(raw, 3, raw.len());
    proof {
        assert(rest@ =~= raw@.skip(3));
    }
    let pieces = pieces_of(&rest);
    let ghost ps = texts(pieces@);
    let mut path: Vec<String> = Vec::new();
    for k in 0..pieces.len()
        invariant
            ps == texts(pieces@),
            path.deep_view() == kept_trims(ps.take(k as int)),
    {
        proof {
            assert(ps.take(k + 1).drop_last() =~= ps.take(k as int));
            assert(ps.take(k + 1).last() == pieces@[k as int]@);
        }
        let q = trim_chars(&pieces[k]);
        if q.len() > 0 {
            let ghost before = path.deep_view();
            path.push(chars_to_string(&q));
            proof {
                assert(path.deep_view() =~= before.push(q@));
            }
        }
    }
    proof {
        assert(ps.take(ps.len() as int) =~= ps);
    }
    path
}

} // verus!

verus! {

/// A product read from the metadata, with the text of its average rating
/// (a decimal number, which the library does not compute with).
#[derive(Debug, Clone)]
pub struct MetaRecord {
    pub product: Product,
    pub rating: Option<String>,
}

/// The mathematical content of a record.
#[verifier::ext_equal]
pub struct MetaView {
    pub product: ProductView,
    pub rating: Option<Seq<char>>,
}

impl View for MetaRecord {
    type V = MetaView;

    open spec fn view(&self) -> MetaView {
        MetaView { product: self.product@, rating: self.rating.deep_view() }
    }
}

/// A record for a product with the given ASIN and nothing else yet.
pub open spec fn fresh_record(asin: Seq<char>) -> MetaView {
    MetaView {
        product: ProductView {
            asin,
            title: None,
            categories: Seq::empty(),
            price: None,
            sales_rank: None,
            avg_rating: None,
            review_count: 0,
            similar: Seq::empty(),
        },
        rating: None,
    }
}

/// The record with its category paths.
pub open spec fn with_paths(e: MetaView, paths: Seq<Seq<Seq<char>>>) -> MetaView {
    MetaView { product: ProductView { categories: paths, ..e.product }, rating: e.rating }
}

/// Reads an attribute line of the current record, whose category paths so
/// far are `paths`:
/// - `  title:` gives the title, the rest of the line trimmed;
/// - `  salesrank:` gives the sales rank, the second word as a number (none
///   when it is not one), if the line has a second word;
/// - `  similar:` adds the words after the second to the co-purchase list
///   (the second is their count), if the line has a second word;
/// - `   |` adds a category path, the bar-separated parts after the tag,
///   trimmed and without empty ones, if there is one;
/// - `  reviews:` gives the rating text, the word after `rating:` as the
///   seventh word, and the number of reviews, the word after `downloaded:`
///   as the fourth word (0 when it is not a number);
/// - any other line changes nothing.
pub open spec fn read_attribute(e: MetaView, paths: Seq<Seq<Seq<char>>>, raw: Seq<char>) -> (MetaView, Seq<Seq<Seq<char>>>) {
    let ws = words(raw);
    let p = e.product;
    if starts_with(raw, title_tag()) {
        (MetaView { product: ProductView { title: Some(trim(raw.skip(8))), ..p }, rating: e.rating }, paths)
    } else if starts_with(raw, salesrank_tag()) {
        if ws.len() > 1 {
            (MetaView { product: ProductView { sales_rank: u64_of(ws[1]), ..p }, rating: e.rating }, paths)
        } else {
            (e, paths)
        }
    } else if starts_with(raw, similar_tag()) {
        if ws.len() > 1 {
            (MetaView { product: ProductView { similar: p.similar + ws.skip(2), ..p }, rating: e.rating }, paths)
        } else {
            (e, paths)
        }
    } else if starts_with(raw, path_tag()) {
        let path = kept_trims(bar_pieces(raw.skip(3)));
        if path.len() > 0 {
            (e, paths.push(path))
        } else {
            (e, paths)
        }
    } else if starts_with(raw, reviews_tag()) {
        let rating = if ws.len() >= 8 && ws[6] == rating_word() {
            Some(ws[7])
        } else {
            e.rating
        };
        let count = if ws.len() >= 5 && ws[3] == downloaded_word() {
            match usize_of(ws[4]) {
                Some(v) => v,
                None => 0,
            }
        } else {
            p.review_count
        };
        (MetaView { product: ProductView { review_count: count, ..p }, rating }, paths)
    } else {
        (e, paths)
    }
}

/// The state of a reading: the finished records, the record being read
/// and its category paths so far.
#[verifier::ext_equal]
pub struct MetaState {
    pub done: Seq<MetaView>,
    pub current: Option<MetaView>,
    pub paths: Seq<Seq<Seq<char>>>,
}

/// The finished records, with the one being read (if any) closed.
pub open spec fn finished(st: MetaState) -> Seq<MetaView> {
    match st.current {
        Some(c) => st.done.push(with_paths(c, st.paths)),
        None => st.done,
    }
}

/// Reads one line: a line that begins with `ASIN` once trimmed closes the
/// current record and starts one for its second word; any other line is an
/// attribute line of the current record, if there is one.
pub open spec fn read_meta_line(st: MetaState, raw: Seq<char>) -> MetaState {
    match line_asin(raw) {
        Some(a) => MetaState { done: finished(st), current: Some(fresh_record(a)), paths: Seq::empty() },
        None => match st.current {
            Some(c) => {
                let (c2, paths2) = read_attribute(c, st.paths, raw);
                MetaState { done: st.done, current: Some(c2), paths: paths2 }
            },
            None => st,
        },
    }
}

/// The state after reading the given lines.
pub open spec fn read_meta_lines(lines: Seq<Seq<char>>) -> MetaState
    decreases lines.len(),
{
    if lines.len() == 0 {
        MetaState { done: Seq::empty(), current: None, paths: Seq::empty() }
    } else {
        read_meta_line(read_meta_lines(lines.drop_last()), lines.last())
    }
}

/// The records of a metadata text, in the order of their `ASIN` lines.
pub open spec fn meta_records(text: Seq<char>) -> Seq<MetaView> {
    finished(read_meta_lines(segments(text)))
}

} // verus!

verus! {

/// The working state of a reading.
struct ParseState {
    done: Vec<MetaRecord>,
    current: Option<MetaRecord>,
    paths: Vec<Vec<String>>,
}

/// The records of a list.
pub open spec fn record_views(rs: Seq<MetaRecord>) -> Seq<MetaView> {
    rs.map_values(|r: MetaRecord| r@)
}

spec fn state_view(st: ParseState) -> MetaState {
    MetaState {
        done: record_views(st.done@),
        current: match st.current {
            Some(c) => Some(c@),
            None => None,
        },
        paths: st.paths.deep_view(),
    }
}

/// A record for a product with the given ASIN and nothing else yet.
fn fresh(asin: String) -> (r: MetaRecord)
    ensures
        r@ == fresh_record(asin@),
{
    let r = MetaRecord {
        product: Product {
            asin,
            title: None,
            categories: Vec::new(),
            price: None,
            sales_rank: None,
            avg_rating: None,
            review_count: 0,
            similar: Vec::new(),
        },
        rating: None,
    };
    proof {
        assert(r@ =~= fresh_record(asin@));
    }
    r
}

/// The record with its category paths.
fn close(c: MetaRecord, paths: Vec<Vec<String>>) -> (r: MetaRecord)
    ensures
        r@ == with_paths(c@, paths.deep_view()),
{
    let mut c = c;
    c.product.categories = paths;
    c
}

/// The chars of a text literal.
fn tag_chars(s: &str) -> (v: Vec<char>)
    ensures
        v@ == s@,
{
    let mut v: Vec<char> = Vec::new();
    for c in it: s.chars()
        invariant
            it.seq() == s@,
            v@ == s@.take(it.index() as int),
    {
        proof {
            assert(s@.take(it.index() + 1) =~= v@.push(c));
        }
        v.push(c);
    }
    proof {
        assert(s@.take(s@.len() as int) =~= s@);
    }
    v
}

/// The co-purchase list with the given words after the second added.
fn add_similar(similar: &mut Vec<String>, ws: &Vec<Vec<char>>)
    requires
        ws@.len() >= 2,
    ensures
        final(similar).deep_view() == old(similar).deep_view() + texts(ws@).skip(2),
{
    let ghost start = similar.deep_view();
    let mut k: usize = 2;
    proof {
        assert(texts(ws@).subrange(2, 2) =~= Seq::<Seq<char>>::empty());
        assert(start + Seq::<Seq<char>>::empty() =~= start);
    }
    while k < ws.len()
        invariant
            2 <= k <= ws@.len(),
            similar.deep_view() == start + texts(ws@).subrange(2, k as int),
        decreases ws.len() - k,
    {
        let ghost before = similar.deep_view();
        similar.push(chars_to_string(&ws[k]));
        proof {
            assert(similar.deep_view() =~= before.push(ws@[k as int]@));
            assert(texts(ws@).subrange(2, k + 1) =~= texts(ws@).subrange(2, k as int).push(ws@[k as int]@));
        }
        k = k + 1;
    }
    proof {
        assert(texts(ws@).subrange(2, ws@.len() as int) =~= texts(ws@).skip(2));
    }
}

/// Reads an attribute line of the current record (see `read_attribute`).
fn read_attribute_line(e: MetaRecord, paths: Vec<Vec<String>>, raw: &Vec<char>) -> (r: (MetaRecord, Vec<Vec<String>>))
    ensures
        (r.0@, r.1.deep_view()) == read_attribute(e@, paths.deep_view(), raw@),
{
    let mut e = e;
    let mut paths = paths;
    let ghost e0 = e@;
    let ghost p0 = paths.deep_view();
    let ws = words_of(raw);
    let title_t = tag_chars("  title:");
    let rank_t = tag_chars("  salesrank:");
    let similar_t = tag_chars("  similar:");
    let path_t = tag_chars("   |");
    let reviews_t = tag_chars("  reviews:");
    proof {
        reveal_strlit("  title:");
        reveal_strlit("  salesrank:");
        reveal_strlit("  similar:");
        reveal_strlit("   |");
        reveal_strlit("  reviews:");
        assert(title_t@ =~= title_tag());
        assert(rank_t@ =~= salesrank_tag());
        assert(similar_t@ =~= similar_tag());
        assert(path_t@ =~= path_tag());
        assert(reviews_t@ =~= reviews_tag());
    }
    if starts_with_chars(raw, &title_t) {
        let rest = copy_range(raw, 8, raw.len());
        let t = trim_chars(&rest);
        proof {
            assert(rest@ =~= raw@.skip(8));
        }
        e.product.title = Some(chars_to_string(&t));
        proof {
            assert(e@ =~= read_attribute(e0, p0, raw@).0);
        }
    } else if starts_with_chars(raw, &rank_t) {
        if ws.len() > 1 {
            e.product.sales_rank = parse_u64(&ws[1]);
            proof {
                assert(e@ =~= read_attribute(e0, p0, raw@).0);
            }
        }
    } else if starts_with_chars(raw, &similar_t) {
        if ws.len() > 1 {
            add_similar(&mut e.product.similar, &ws);
            proof {
                assert(e@ =~= read_attribute(e0, p0, raw@).0);
            }
        }
    } else if starts_with_chars(raw, &path_t) {
        let path = path_of(raw);
        if path.len() > 0 {
            let ghost before = paths.deep_view();
            paths.push(path);
            proof {
                assert(paths.deep_view() =~= before.push(kept_trims(bar_pieces(raw@.skip(3)))));
            }
        }
    } else if starts_with_chars(raw, &reviews_t) {
        let rating_t = tag_chars("rating:");
        let downloaded_t = tag_chars("downloaded:");
        proof {
            reveal_strlit("rating:");
            reveal_strlit("downloaded:");
            assert(rating_t@ =~= rating_word());
            assert(downloaded_t@ =~= downloaded_word());
        }
        if ws.len() >= 8 && same_chars(&ws[6], &rating_t) {
            e.rating = Some(chars_to_string(&ws[7]));
        }
        if ws.len() >= 5 && same_chars(&ws[3], &downloaded_t) {
            e.product.review_count = match parse_usize(&ws[4]) {
                Some(v) => v,
                None => 0,
            };
        }
        proof {
            assert(e@ =~= read_attribute(e0, p0, raw@).0);
        }
    }
    (e, paths)
}

/// Reads one line (see `read_meta_line`).
fn read_line(st: ParseState, raw: &Vec<char>) -> (r: ParseState)
    ensures
        state_view(r) == read_meta_line(state_view(st), raw@),
{
    let ParseState { mut done, current, paths } = st;
    let ghost before = state_view(ParseState { done, current, paths });
    match asin_of_line(raw) {
        Some(a) => {
            match current {
                Some(c) => {
                    let ghost d0 = record_views(done@);
                    done.push(close(c, paths));
                    proof {
                        assert(record_views(done@) =~= d0.push(with_paths(before.current.unwrap(), before.paths)));
                    }
                },
                None => {},
            }
            let r = ParseState { done, current: Some(fresh(a)), paths: Vec::new() };
            proof {
                assert(state_view(r) =~= read_meta_line(before, raw@));
            }
            r
        },
        None => match current {
            Some(c) => {
                let (c2, p2) = read_attribute_line(c, paths, raw);
                let r = ParseState { done, current: Some(c2), paths: p2 };
                proof {
                    assert(state_view(r) =~= read_meta_line(before, raw@));
                }
                r
            },
            None => {
                let r = ParseState { done, current: None, paths };
                proof {
                    assert(state_view(r) =~= read_meta_line(before, raw@));
                }
                r
            },
        },
    }
}

/// The records of a state, the one being read closed.
fn finish(st: ParseState) -> (r: Vec<MetaRecord>)
    ensures
        record_views(r@) == finished(state_view(st)),
{
    let ParseState { mut done, current, paths } = st;
    let ghost d0 = record_views(done@);
    let ghost before = state_view(ParseState { done, current, paths });
    match current {
        Some(c) => {
            done.push(close(c, paths));
            proof {
                assert(record_views(done@) =~= d0.push(with_paths(before.current.unwrap(), before.paths)));
            }
        },
        None => {},
    }
    done
}

/// Reads the records of Amazon metadata text (see `meta_records`).
pub fn parse_meta_records(text: &str) -> (records: Vec<MetaRecord>)
    ensures
        record_views(records@) == meta_records(text@),
{
    let mut st = ParseState { done: Vec::new(), current: None, paths: Vec::new() };
    let mut line: Vec<char> = Vec::new();
    let ghost mut seen: Seq<char> = Seq::empty();
    proof {
        lemma_segments_nonempty(seen);
        assert(state_view(st) =~= read_meta_lines(segments(seen).drop_last()));
    }
    for c in it: text.chars()
        invariant
            it.seq() == text@,
            seen == text@.take(it.index() as int),
            segments(seen).len() >= 1,
            line@ == segments(seen).last(),
            state_view(st) == read_meta_lines(segments(seen).drop_last()),
    {
        let ghost prev = seen;
        proof {
            seen = text@.take(it.index() + 1);
            assert(seen.drop_last() =~= prev);
            lemma_segments_nonempty(seen);
        }
        if c == '\n' {
            st = read_line(st, &line);
            proof {
                assert(segments(seen).drop_last() =~= segments(prev));
                assert(segments(prev) =~= segments(prev).drop_last().push(segments(prev).last()));
            }
            line = Vec::new();
        } else {
            line.push(c);
            proof {
                assert(segments(seen).drop_last() =~= segments(prev).drop_last());
            }
        }
    }
    let ghost all = segments(text@);
    proof {
        assert(seen =~= text@);
        assert(all =~= all.drop_last().push(all.last()));
    }
    st = read_line(st, &line);
    finish(st)
}

} // verus!

verus! {

/// Reads the products from Amazon metadata text: those of `meta_records`,
/// in the order of their `ASIN` lines. The average rating is a decimal
/// number and is left out here; `parse_meta_records` keeps its text.
pub fn parse_amazon_meta(text: &str) -> (products: Vec<Product>)
    ensures
        product_views(products@) == meta_records(text@).map_values(|r: MetaView| r.product),
{
    let records = parse_meta_records(text);
    let ghost rv = meta_records(text@);
    let mut products: Vec<Product> = Vec::new();
    for k in 0..records.len()
        invariant
            record_views(records@) == rv,
            product_views(products@) == rv.map_values(|r: MetaView| r.product).take(k as int),
    {
        let ghost before = product_views(products@);
        products.push(records[k].product.duplicate());
        proof {
            assert(product_views(products@) =~= before.push(records@[k as int].product@));
            assert(rv.map_values(|r: MetaView| r.product).take(k + 1) =~= rv.map_values(|r: MetaView| r.product).take(
                k as int,
            ).push(rv[k as int].product));
        }
    }
    proof {
        assert(rv.map_values(|r: MetaView| r.product).take(records@.len() as int) =~= rv.map_values(
            |r: MetaView| r.product,
        ));
    }
    products
}

} // verus!

verus! {

/// Every decimal numeral (digits, optionally after a `+`) whose value fits
/// reads as its value, and one with a non-digit does not read.
pub proof fn lemma_numeral_reads(d: Seq<char>)
    requires
        d.len() > 0,
        all_digits(d),
    ensures
        digits_value(d) <= usize::MAX ==> usize_of(d) == Some(digits_value(d) as usize),
        digits_value(d) <= u64::MAX ==> u64_of(d) == Some(digits_value(d) as u64),
        digits_value(d) <= usize::MAX ==> usize_of(seq!['+'] + d) == Some(digits_value(d) as usize),
        digits_value(d) > usize::MAX ==> usize_of(d) is None,
{
    assert(is_digit(d[0]));
    assert(d[0] != '+');
    assert((seq!['+'] + d).drop_first() =~= d);
}

} // verus!
