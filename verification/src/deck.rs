//! Building a deck from the markdown files of a directory: which files are
//! slides, their natural order, front matter, titles and names.
//!
//! Reading the directory and the files happens outside; the functions here
//! take names and contents and decide.
use crate::markdown::{lemma_deep_view_empty, lemma_deep_view_push, parse_slide, slide_title, title_of, ParseError, document_of, max_events};
use crate::cmark::markdown_events;
use crate::model::{Deck, DeckMetadata, Slide, SlideFrontmatter};
use crate::text::{
    all_digits, chars_of, copy_string, digits_value, has_prefix, has_prefix_at, is_digit, lowercase, parse_u64,
    parse_unsigned, split_on, split_on_exec, starts_with_at, str_eq, string_is, string_of,
    substring, to_lowercase, to_owned_string, trim_start,
};
use std::cmp::Ordering;
use vstd::prelude::*;
use vstd::seq_lib::to_multiset_insert;
use vstd::string::StringExecFns;

verus! {

// ---------------------------------------------------------------------------
// Natural order of file names
// ---------------------------------------------------------------------------

/// A piece of a file name for natural ordering: a run of non-digits, lower-cased,
/// or a run of ASCII digits read as a number (0 when too large).
#[derive(Clone, Debug, PartialEq, Eq)]
pub enum NaturalToken {
    Text(String),
    Number(u64),
}

pub enum TokenModel {
    Text(Seq<char>),
    Number(nat),
}

impl View for NaturalToken {
    type V = TokenModel;

    open spec fn view(&self) -> TokenModel {
        match self {
            NaturalToken::Text(t) => TokenModel::Text(t@),
            NaturalToken::Number(n) => TokenModel::Number(*n as nat),
        }
    }
}

impl DeepView for NaturalToken {
    type V = TokenModel;

    open spec fn deep_view(&self) -> TokenModel {
        self@
    }
}

/// The token a run of characters makes.
pub open spec fn run_token(run: Seq<char>, digits: bool) -> TokenModel {
    if digits {
        TokenModel::Number(
            match parse_unsigned(run, u64::MAX as nat) {
                Some(v) => v,
                None => 0,
            },
        )
    } else {
        TokenModel::Text(lowercase(run))
    }
}

/// Scanning a name: the tokens of the runs before the current one, the current
/// run, and whether it is a run of digits.
pub open spec fn token_fold(s: Seq<char>) -> (Seq<TokenModel>, Seq<char>, bool)
    decreases s.len(),
{
    if s.len() == 0 {
        (Seq::empty(), Seq::empty(), false)
    } else {
        let prev = token_fold(s.drop_last());
        let c = s.last();
        if prev.1.len() == 0 {
            (prev.0, seq![c], is_digit(c))
        } else if is_digit(c) == prev.2 {
            (prev.0, prev.1.push(c), prev.2)
        } else {
            (prev.0.push(run_token(prev.1, prev.2)), seq![c], is_digit(c))
        }
    }
}

/// The natural-order tokens of a name: its maximal runs of digits and of non-digits.
pub open spec fn tokens(s: Seq<char>) -> Seq<TokenModel> {
    let f = token_fold(s);
    if f.1.len() == 0 {
        f.0
    } else {
        f.0.push(run_token(f.1, f.2))
    }
}

/// A three-way comparison.
#[derive(Clone, Copy, Debug, PartialEq, Eq, Structural)]
pub enum Order {
    Less,
    Equal,
    Greater,
}

pub open spec fn flip(o: Order) -> Order {
    match o {
        Order::Less => Order::Greater,
        Order::Equal => Order::Equal,
        Order::Greater => Order::Less,
    }
}

/// Lexicographic order of texts by character (the order of `String`).
pub open spec fn text_order(a: Seq<char>, b: Seq<char>) -> Order
    decreases a.len(),
{
    if a.len() == 0 && b.len() == 0 {
        Order::Equal
    } else if a.len() == 0 {
        Order::Less
    } else if b.len() == 0 {
        Order::Greater
    } else if a[0] < b[0] {
        Order::Less
    } else if a[0] > b[0] {
        Order::Greater
    } else {
        text_order(a.drop_first(), b.drop_first())
    }
}

/// The order of tokens: text before numbers, texts by `text_order`, numbers by value.
pub open spec fn token_order(a: TokenModel, b: TokenModel) -> Order {
    match (a, b) {
        (TokenModel::Text(x), TokenModel::Text(y)) => text_order(x, y),
        (TokenModel::Text(_), TokenModel::Number(_)) => Order::Less,
        (TokenModel::Number(_), TokenModel::Text(_)) => Order::Greater,
        (TokenModel::Number(x), TokenModel::Number(y)) => if x < y {
            Order::Less
        } else if x > y {
            Order::Greater
        } else {
            Order::Equal
        },
    }
}

/// Lexicographic order of token lists.
pub open spec fn tokens_order(a: Seq<TokenModel>, b: Seq<TokenModel>) -> Order
    decreases a.len(),
{
    if a.len() == 0 && b.len() == 0 {
        Order::Equal
    } else if a.len() == 0 {
        Order::Less
    } else if b.len() == 0 {
        Order::Greater
    } else {
        match token_order(a[0], b[0]) {
            Order::Equal => tokens_order(a.drop_first(), b.drop_first()),
            o => o,
        }
    }
}

/// The natural order of two names.
#[verifier::opaque]
pub open spec fn natural_order(a: Seq<char>, b: Seq<char>) -> Order {
    tokens_order(tokens(a), tokens(b))
}

/// Swapping two texts flips their character-by-character order.
pub proof fn lemma_text_order_flip(a: Seq<char>, b: Seq<char>)
    ensures
        text_order(b, a) == flip(text_order(a, b)),
    decreases a.len(),
{
    if a.len() > 0 && b.len() > 0 && a[0] == b[0] {
        lemma_text_order_flip(a.drop_first(), b.drop_first());
    }
}

/// Swapping two token runs flips their order.
pub proof fn lemma_tokens_order_flip(a: Seq<TokenModel>, b: Seq<TokenModel>)
    ensures
        tokens_order(b, a) == flip(tokens_order(a, b)),
    decreases a.len(),
{
    if a.len() > 0 && b.len() > 0 {
        match (a[0], b[0]) {
            (TokenModel::Text(x), TokenModel::Text(y)) => lemma_text_order_flip(x, y),
            _ => {},
        }
        if token_order(a[0], b[0]) == Order::Equal {
            lemma_tokens_order_flip(a.drop_first(), b.drop_first());
        }
    }
}

/// Swapping two names flips their natural order.
pub proof fn lemma_natural_order_flip(a: Seq<char>, b: Seq<char>)
    ensures
        natural_order(b, a) == flip(natural_order(a, b)),
{
    reveal(natural_order);
    lemma_tokens_order_flip(tokens(a), tokens(b));
}

/// The token a finished run makes.
fn run_token_exec(run: &Vec<char>, digits: bool) -> (r: NaturalToken)
    ensures
        r@ == run_token(run@, digits),
{
    if digits {
        match parse_u64(run.as_slice()) {
            Some(v) => NaturalToken::Number(v),
            None => NaturalToken::Number(0),
        }
    } else {
        let s = string_of(run.as_slice());
        NaturalToken::Text(to_lowercase(s.as_str()))
    }
}

/// Splits a name into its natural-order tokens.
pub fn tokenize_natural(input: &str) -> (r: Vec<NaturalToken>)
    ensures
        r.deep_view() == tokens(input@),
{
    let cs = chars_of(input);
    let mut done: Vec<NaturalToken> = Vec::new();
    let mut cur: Vec<char> = Vec::new();
    let mut digits = false;
    proof {
        lemma_deep_view_empty(done);
        assert(cs@.take(0) =~= Seq::<char>::empty());
    }
    let mut i: usize = 0;
    while i < cs.len()
        invariant
            i <= cs@.len(),
            cs@ == input@,
            (done.deep_view(), cur@, digits) == token_fold(cs@.take(i as int)),
        decreases cs.len() - i,
    {
        let c = cs[i];
        let d = '0' <= c && c <= '9';
        proof {
            assert(cs@.take(i as int + 1).drop_last() =~= cs@.take(i as int));
            assert(cs@.take(i as int + 1).last() == c);
        }
        if cur.len() == 0 {
            cur.push(c);
            digits = d;
            assert(cur@ =~= seq![c]);
        } else if d == digits {
            cur.push(c);
        } else {
            let t = run_token_exec(&cur, digits);
            let ghost before = done;
            done.push(t);
            proof {
                lemma_deep_view_push(before, done, t);
            }
            cur = Vec::new();
            cur.push(c);
            digits = d;
            assert(cur@ =~= seq![c]);
        }
        i += 1;
    }
    proof {
        assert(cs@.take(i as int) =~= input@);
    }
    if cur.len() > 0 {
        let t = run_token_exec(&cur, digits);
        let ghost before = done;
        done.push(t);
        proof {
            lemma_deep_view_push(before, done, t);
        }
    }
    done
}

/// Compares two texts by character.
pub fn compare_text(a: &str, b: &str) -> (r: Order)
    ensures
        r == text_order(a@, b@),
{
    let ac = chars_of(a);
    let bc = chars_of(b);
    let mut i: usize = 0;
    assert(a@.skip(0) =~= a@);
    assert(b@.skip(0) =~= b@);
    while i < ac.len() && i < bc.len()
        invariant
            ac@ == a@,
            bc@ == b@,
            i <= ac.len(),
            i <= bc.len(),
            text_order(a@, b@) == text_order(a@.skip(i as int), b@.skip(i as int)),
        decreases ac.len() - i,
    {
        assert(a@.skip(i as int)[0] == ac@[i as int]);
        assert(b@.skip(i as int)[0] == bc@[i as int]);
        if ac[i] < bc[i] {
            return Order::Less;
        }
        if ac[i] > bc[i] {
            return Order::Greater;
        }
        assert(a@.skip(i as int).drop_first() =~= a@.skip(i as int + 1));
        assert(b@.skip(i as int).drop_first() =~= b@.skip(i as int + 1));
        i += 1;
    }
    if i == ac.len() && i == bc.len() {
        assert(a@.skip(i as int).len() == 0);
        Order::Equal
    } else if i == ac.len() {
        Order::Less
    } else {
        Order::Greater
    }
}

fn compare_token(a: &NaturalToken, b: &NaturalToken) -> (r: Order)
    ensures
        r == token_order(a@, b@),
{
    match (a, b) {
        (NaturalToken::Text(x), NaturalToken::Text(y)) => compare_text(x.as_str(), y.as_str()),
        (NaturalToken::Text(_), NaturalToken::Number(_)) => Order::Less,
        (NaturalToken::Number(_), NaturalToken::Text(_)) => Order::Greater,
        (NaturalToken::Number(x), NaturalToken::Number(y)) => {
            if *x < *y {
                Order::Less
            } else if *x > *y {
                Order::Greater
            } else {
                Order::Equal
            }
        },
    }
}

/// Compares two token lists lexicographically.
fn compare_tokens(a: &Vec<NaturalToken>, b: &Vec<NaturalToken>) -> (r: Order)
    ensures
        r == tokens_order(a.deep_view(), b.deep_view()),
{
    let ghost av = a.deep_view();
    let ghost bv = b.deep_view();
    let mut i: usize = 0;
    assert(av.skip(0) =~= av);
    assert(bv.skip(0) =~= bv);
    while i < a.len() && i < b.len()
        invariant
            av == a.deep_view(),
            bv == b.deep_view(),
            i <= a.len(),
            i <= b.len(),
            tokens_order(av, bv) == tokens_order(av.skip(i as int), bv.skip(i as int)),
        decreases a.len() - i,
    {
        assert(av.skip(i as int)[0] == a[i as int]@);
        assert(bv.skip(i as int)[0] == b[i as int]@);
        let o = compare_token(&a[i], &b[i]);
        match o {
            Order::Equal => {},
            _ => {
                return o;
            },
        }
        assert(av.skip(i as int).drop_first() =~= av.skip(i as int + 1));
        assert(bv.skip(i as int).drop_first() =~= bv.skip(i as int + 1));
        i += 1;
    }
    if i == a.len() && i == b.len() {
        Order::Equal
    } else if i == a.len() {
        Order::Less
    } else {
        Order::Greater
    }
}

/// The natural order of two file names.
pub fn compare_natural(a: &str, b: &str) -> (r: Order)
    ensures
        r == natural_order(a@, b@),
{
    let ta = tokenize_natural(a);
    let tb = tokenize_natural(b);
    proof {
        reveal(natural_order);
    }
    compare_tokens(&ta, &tb)
}

/// The natural order of two file names, as `Ordering`; a missing name counts as empty.
pub fn natural_key(a: Option<&str>, b: Option<&str>) -> (r: Ordering)
    ensures
        r == (match natural_order(
            match a {
                Some(x) => x@,
                None => Seq::empty(),
            },
            match b {
                Some(x) => x@,
                None => Seq::empty(),
            },
        ) {
            Order::Less => Ordering::Less,
            Order::Equal => Ordering::Equal,
            Order::Greater => Ordering::Greater,
        }),
{
    let a = match a {
        Some(x) => x,
        None => "",
    };
    let b = match b {
        Some(x) => x,
        None => "",
    };
    proof {
        reveal_strlit("");
        assert(""@ =~= Seq::<char>::empty());
    }
    match compare_natural(a, b) {
        Order::Less => Ordering::Less,
        Order::Equal => Ordering::Equal,
        Order::Greater => Ordering::Greater,
    }
}

/// Whether each name comes no later than the next in natural order.
pub open spec fn naturally_sorted(names: Seq<Seq<char>>) -> bool {
    forall|i: int, j: int|
        0 <= i && j == i + 1 && j < names.len() ==> #[trigger] natural_order(names[i], names[j])
            != Order::Greater
}

proof fn lemma_insert_keeps_sorted(ov: Seq<Seq<char>>, x: Seq<char>, p: int)
    requires
        naturally_sorted(ov),
        0 <= p <= ov.len(),
        forall|q: int| p <= q < ov.len() ==> natural_order(x, #[trigger] ov[q]) == Order::Less,
        p > 0 ==> natural_order(ov[p - 1], x) != Order::Greater,
    ensures
        naturally_sorted(ov.insert(p, x)),
{
    let nv = ov.insert(p, x);
    assert forall|k: int, m: int| 0 <= k && m == k + 1 && m < nv.len() implies #[trigger] natural_order(
        nv[k],
        nv[m],
    ) != Order::Greater by {
        if m < p {
            assert(nv[k] == ov[k] && nv[m] == ov[m]);
            assert(natural_order(ov[k], ov[m]) != Order::Greater);
        } else if m == p {
            assert(nv[k] == ov[k] && nv[m] == x);
        } else if k == p {
            assert(nv[k] == x && nv[m] == ov[k]);
        } else {
            assert(nv[k] == ov[k - 1] && nv[m] == ov[k]);
            assert(natural_order(ov[k - 1], ov[k]) != Order::Greater);
        }
    }
}

proof fn lemma_insert_multiset(ov: Seq<Seq<char>>, input: Seq<Seq<char>>, x: Seq<char>, p: int, i: int)
    requires
        0 <= p <= ov.len(),
        0 <= i < input.len(),
        input[i] == x,
        ov.to_multiset() == input.take(i).to_multiset(),
    ensures
        ov.insert(p, x).to_multiset() == input.take(i + 1).to_multiset(),
{
    to_multiset_insert(ov, p, x);
    assert(input.take(i + 1) =~= input.take(i).push(input[i]));
    vstd::seq_lib::to_multiset_build(input.take(i), input[i]);
}

/// Where `x` goes among the first `p` names of `v`: after every name it does
/// not come before.
pub open spec fn insert_point(v: Seq<Seq<char>>, x: Seq<char>, p: int) -> int
    decreases p,
{
    if p > 0 && natural_order(x, v[p - 1]) == Order::Less {
        insert_point(v, x, p - 1)
    } else {
        p
    }
}

/// The names inserted one by one, each after the names it does not come
/// before: a stable sort, in which names of equal rank keep their order.
pub open spec fn stable_natural_sort(names: Seq<Seq<char>>) -> Seq<Seq<char>>
    decreases names.len(),
{
    if names.len() == 0 {
        Seq::empty()
    } else {
        let v = stable_natural_sort(names.drop_last());
        v.insert(insert_point(v, names.last(), v.len() as int), names.last())
    }
}

/// Sorts names in natural order; names of equal rank keep their order.
pub fn natural_sort(names: Vec<String>) -> (r: Vec<String>)
    ensures
        r.deep_view() == stable_natural_sort(names.deep_view()),
        r.deep_view().to_multiset() == names.deep_view().to_multiset(),
        naturally_sorted(r.deep_view()),
{
    let ghost input = names.deep_view();
    let mut out: Vec<String> = Vec::new();
    proof {
        lemma_deep_view_empty(out);
        assert(input.take(0) =~= Seq::<Seq<char>>::empty());
    }
    let mut i: usize = 0;
    while i < names.len()
        invariant
            i <= names.len(),
            input == names.deep_view(),
            out.deep_view().to_multiset() == input.take(i as int).to_multiset(),
            naturally_sorted(out.deep_view()),
            out.deep_view() == stable_natural_sort(input.take(i as int)),
        decreases names.len() - i,
    {
        let x = copy_string(&names[i]);
        let ghost ov = out.deep_view();
        let mut p: usize = out.len();
        while p > 0 && compare_natural(x.as_str(), out[p - 1].as_str()) == Order::Less
            invariant
                p <= out.len(),
                out.len() == ov.len(),
                ov == out.deep_view(),
                forall|q: int| p <= q < ov.len() ==> natural_order(x@, #[trigger] ov[q])
                    == Order::Less,
                insert_point(ov, x@, ov.len() as int) == insert_point(ov, x@, p as int),
            decreases p,
        {
            p -= 1;
        }
        out.insert(p, x);
        proof {
            assert(input.take(i + 1).drop_last() =~= input.take(i as int));
            assert(input.take(i + 1).last() == x@);
            assert(insert_point(ov, x@, p as int) == p);
            assert(out.deep_view() =~= ov.insert(p as int, x@));
            if p > 0 {
                lemma_natural_order_flip(x@, ov[p - 1]);
            }
            lemma_insert_keeps_sorted(ov, x@, p as int);
            lemma_insert_multiset(ov, input, x@, p as int, i as int);
        }
        i += 1;
    }
    proof {
        assert(input.take(i as int) =~= input);
    }
    out
}

} // verus!

verus! {

// ---------------------------------------------------------------------------
// File names
// ---------------------------------------------------------------------------

/// The last component of a list of path pieces, skipping empty pieces and `.`.
pub open spec fn last_component(ps: Seq<Seq<char>>) -> Option<Seq<char>>
    decreases ps.len(),
{
    if ps.len() == 0 {
        None
    } else if ps.last().len() == 0 || ps.last() == seq!['.'] {
        last_component(ps.drop_last())
    } else {
        Some(ps.last())
    }
}

/// `Path::file_name` for a `/`-separated path: its last component, unless
/// that is `..` or there is none.
pub open spec fn file_name(p: Seq<char>) -> Option<Seq<char>> {
    match last_component(split_on(p, '/')) {
        Some(n) => if n == seq!['.', '.'] {
            None
        } else {
            Some(n)
        },
        None => None,
    }
}

/// `Path::extension` of a file name: what follows its last dot, when the dot
/// is not the first character.
pub open spec fn extension(n: Seq<char>) -> Option<Seq<char>> {
    if n == seq!['.', '.'] || last_index_of(n, '.') <= 0 {
        None
    } else {
        Some(n.subrange(last_index_of(n, '.') + 1, n.len() as int))
    }
}

/// `Path::file_stem` of a file name: what precedes its last dot, when the dot
/// is not the first character; else the whole name.
pub open spec fn stem(n: Seq<char>) -> Seq<char> {
    if n == seq!['.', '.'] || last_index_of(n, '.') <= 0 {
        n
    } else {
        n.take(last_index_of(n, '.'))
    }
}

/// Whether a file name ends in `.md`, in any case.
pub open spec fn is_markdown_name(n: Seq<char>) -> bool {
    match extension(n) {
        Some(e) => e.len() == 2 && (e[0] == 'm' || e[0] == 'M') && (e[1] == 'd' || e[1] == 'D'),
        None => false,
    }
}

/// A file's stem with `_` and `-` turned into spaces: the title of a slide
/// without a heading.
pub open spec fn fallback_title_of(path: Seq<char>) -> Seq<char> {
    let n = match file_name(path) {
        Some(n) => n,
        None => Seq::empty(),
    };
    stem(n).map_values(|c: char| if c == '_' || c == '-' { ' ' } else { c })
}

/// The last component of `path`, if any.
pub fn path_file_name(path: &str) -> (r: Option<String>)
    ensures
        r.deep_view() == file_name(path@),
{
    let ps = split_on_exec(path, '/');
    let ghost pv = ps.deep_view();
    let mut k: usize = ps.len();
    proof {
        assert(pv.take(k as int) =~= pv);
    }
    while k > 0
        invariant
            k <= ps.len(),
            pv == ps.deep_view(),
            pv == split_on(path@, '/'),
            last_component(pv) == last_component(pv.take(k as int)),
        decreases k,
    {
        let piece = &ps[k - 1];
        proof {
            assert(pv.take(k as int).last() == piece@);
            assert(pv.take(k as int).drop_last() =~= pv.take(k - 1));
        }
        proof {
            reveal_strlit(".");
            reveal_strlit("..");
            assert("."@ =~= seq!['.']);
            assert(".."@ =~= seq!['.', '.']);
        }
        if !(piece.as_str().is_empty() || string_is(piece, ".")) {
            assert(last_component(pv) == Some(piece@));
            if string_is(piece, "..") {
                return None;
            }
            return Some(copy_string(piece));
        }
        k -= 1;
    }
    None
}

/// Whether a file name ends in `.md`, in any case.
pub fn is_markdown(name: &str) -> (r: bool)
    ensures
        r == is_markdown_name(name@),
{
    let cs = chars_of(name);
    if cs.len() == 2 && cs[0] == '.' && cs[1] == '.' {
        assert(name@ =~= seq!['.', '.']);
        return false;
    }
    assert(name@ != seq!['.', '.']);
    match find_last(&cs, '.') {
        None => false,
        Some(k) => {
            if k == 0 {
                return false;
            }
            let len = cs.len();
            let ghost e = name@.subrange(k + 1, len as int);
            if len - (k + 1) != 2 {
                return false;
            }
            assert(e[0] == cs[k + 1] && e[1] == cs[k + 2]);
            (cs[k + 1] == 'm' || cs[k + 1] == 'M') && (cs[k + 2] == 'd' || cs[k + 2] == 'D')
        },
    }
}

/// The title of a slide without a heading: its file's stem with `_` and `-`
/// turned into spaces.
pub fn fallback_title(path: &str) -> (r: String)
    ensures
        r@ == fallback_title_of(path@),
{
    let n = match path_file_name(path) {
        Some(n) => n,
        None => String::new(),
    };
    let cs = chars_of(n.as_str());
    let ghost nv = n@;
    let end: usize = if cs.len() == 2 && cs[0] == '.' && cs[1] == '.' {
        assert(nv =~= seq!['.', '.']);
        cs.len()
    } else {
        match find_last(&cs, '.') {
            Some(k) => if k == 0 {
                cs.len()
            } else {
                k
            },
            None => cs.len(),
        }
    };
    let ghost st = stem(nv);
    assert(st =~= nv.take(end as int));
    let mut out = String::new();
    let mut i: usize = 0;
    while i < end
        invariant
            i <= end <= cs.len(),
            cs@ == nv,
            st == nv.take(end as int),
            out@ == st.take(i as int).map_values(|c: char| if c == '_' || c == '-' { ' ' } else { c }),
        decreases end - i,
    {
        let c = cs[i];
        let m = if c == '_' || c == '-' {
            ' '
        } else {
            c
        };
        crate::text::push_char(&mut out, m);
        assert(st.take(i as int + 1).map_values(|c: char| if c == '_' || c == '-' { ' ' } else { c })
            =~= st.take(i as int).map_values(|c: char| if c == '_' || c == '-' { ' ' } else { c }).push(m));
        i += 1;
    }
    assert(st.take(i as int) =~= st);
    out
}

} // verus!

verus! {

// ---------------------------------------------------------------------------
// The slides of a directory
// ---------------------------------------------------------------------------

/// Why a deck could not be built.
#[derive(Clone, Copy, Debug, PartialEq, Eq, Structural)]
pub enum LoadError {
    /// The directory holds no markdown file.
    NoSlides,
}

/// The markdown names among `names`, in their order.
pub open spec fn markdown_names(names: Seq<Seq<char>>) -> Seq<Seq<char>>
    decreases names.len(),
{
    if names.len() == 0 {
        Seq::empty()
    } else if is_markdown_name(names.last()) {
        markdown_names(names.drop_last()).push(names.last())
    } else {
        markdown_names(names.drop_last())
    }
}

/// The slide files among the file names of a directory, in natural order;
/// `NoSlides` when there is none.
pub fn select_slide_names(names: Vec<String>) -> (r: Result<Vec<String>, LoadError>)
    ensures
        match r {
            Ok(v) => v.len() > 0 && v.deep_view() == stable_natural_sort(
                markdown_names(names.deep_view()),
            ) && v.deep_view().to_multiset() == markdown_names(names.deep_view()).to_multiset()
                && naturally_sorted(v.deep_view()),
            Err(e) => e == LoadError::NoSlides && markdown_names(names.deep_view()).len() == 0,
        },
{
    let ghost input = names.deep_view();
    let mut md: Vec<String> = Vec::new();
    proof {
        lemma_deep_view_empty(md);
        assert(input.take(0) =~= Seq::<Seq<char>>::empty());
    }
    let mut i: usize = 0;
    while i < names.len()
        invariant
            i <= names.len(),
            input == names.deep_view(),
            md.deep_view() == markdown_names(input.take(i as int)),
        decreases names.len() - i,
    {
        proof {
            assert(input.take(i as int + 1).drop_last() =~= input.take(i as int));
            assert(input.take(i as int + 1).last() == names[i as int]@);
        }
        if is_markdown(names[i].as_str()) {
            let x = copy_string(&names[i]);
            let ghost before = md;
            md.push(x);
            proof {
                lemma_deep_view_push(before, md, x);
            }
        }
        i += 1;
    }
    proof {
        assert(input.take(i as int) =~= input);
    }
    if md.len() == 0 {
        return Err(LoadError::NoSlides);
    }
    let sorted = natural_sort(md);
    proof {
        vstd::seq_lib::to_multiset_len(sorted.deep_view());
        vstd::seq_lib::to_multiset_len(markdown_names(input));
    }
    Ok(sorted)
}

/// The opening line of front matter.
pub open spec fn front_open() -> Seq<char> {
    seq!['-', '-', '-', '\n']
}

/// The line that closes front matter, with the newline before it.
pub open spec fn front_close() -> Seq<char> {
    seq!['\n', '-', '-', '-', '\n']
}

/// The first position where `p` occurs in `s` (meaningful when it occurs).
pub open spec fn first_occurrence(s: Seq<char>, p: Seq<char>) -> int {
    choose|i: int|
        has_prefix_at(s, i, p) && forall|j: int| 0 <= j < i ==> !#[trigger] has_prefix_at(s, j, p)
}

/// `s` without its leading newlines.
pub open spec fn drop_newlines(s: Seq<char>) -> Seq<char>
    decreases s.len(),
{
    if s.len() > 0 && s[0] == '\n' {
        drop_newlines(s.drop_first())
    } else {
        s
    }
}

/// A slide file cut into its body and its front matter: front matter is what
/// lies between a first line `---` and the next line `---`; the body follows,
/// without leading blank lines. Without both lines the whole file is body.
pub open spec fn frontmatter_split(raw: Seq<char>) -> (Seq<char>, Option<Seq<char>>) {
    if !has_prefix(raw, front_open()) {
        (raw, None)
    } else {
        let rest = raw.skip(4);
        if exists|i: int| #[trigger] has_prefix_at(rest, i, front_close()) {
            let e = first_occurrence(rest, front_close());
            (drop_newlines(rest.skip(e + 5)), Some(rest.take(e)))
        } else {
            (raw, None)
        }
    }
}

/// Cuts a slide file into its body and the text of its front matter, if any.
pub fn split_frontmatter(raw: &str) -> (r: (String, Option<String>))
    ensures
        (r.0@, r.1.deep_view()) == frontmatter_split(raw@),
{
    let cs = chars_of(raw);
    let open = vec!['-', '-', '-', '\n'];
    let close = vec!['\n', '-', '-', '-', '\n'];
    assert(open@ =~= front_open());
    assert(close@ =~= front_close());
    if !starts_with_at(cs.as_slice(), 0, open.as_slice()) {
        assert(has_prefix(raw@, front_open()) == has_prefix_at(raw@, 0, front_open())) by {
            assert(raw@.subrange(0, 4) =~= raw@.subrange(0int, 0int + 4));
        }
        return (to_owned_string(raw), None);
    }
    assert(raw@.subrange(0, 4) =~= raw@.subrange(0int, 0int + 4));
    assert(has_prefix(raw@, front_open()));
    let ghost rest = raw@.skip(4);
    let mut i: usize = 4;
    while 5 <= cs.len() - i
        invariant
            4 <= i <= cs.len(),
            cs@ == raw@,
            close@ == front_close(),
            has_prefix(raw@, front_open()),
            rest == raw@.skip(4),
            forall|j: int| 0 <= j < i - 4 ==> !#[trigger] has_prefix_at(rest, j, front_close()),
        decreases cs.len() - i,
    {
        if starts_with_at(cs.as_slice(), i, close.as_slice()) {
            proof {
                let e = (i - 4) as int;
                assert(rest.subrange(e, e + 5) =~= raw@.subrange(i as int, i + 5));
                assert(has_prefix_at(rest, e, front_close()));
                let w = first_occurrence(rest, front_close());
                assert(has_prefix_at(rest, w, front_close()) && forall|j: int|
                    0 <= j < w ==> !#[trigger] has_prefix_at(rest, j, front_close()));
                assert(w == e);
            }
            let head = substring(cs.as_slice(), 4, i);
            let mut k = i + 5;
            while k < cs.len() && cs[k] == '\n'
                invariant
                    i + 5 <= k <= cs.len(),
                    cs@ == raw@,
                    drop_newlines(raw@.skip(i + 5)) == drop_newlines(raw@.skip(k as int)),
                decreases cs.len() - k,
            {
                assert(raw@.skip(k as int).drop_first() =~= raw@.skip(k + 1));
                k += 1;
            }
            let body = substring(cs.as_slice(), k, cs.len());
            proof {
                assert(body@ =~= raw@.skip(k as int));
                assert(rest.skip((i - 4) + 5) =~= raw@.skip(i + 5));
                assert(head@ =~= rest.take(i - 4));
                if k < cs.len() {
                    assert(raw@.skip(k as int)[0] == cs@[k as int]);
                }
                assert(drop_newlines(raw@.skip(k as int)) == raw@.skip(k as int));
                assert(has_prefix(raw@, front_open()));
                assert(exists|j: int| #[trigger] has_prefix_at(rest, j, front_close()));
            }
            return (body, Some(head));
        }
        proof {
            let e = (i - 4) as int;
            assert(rest.subrange(e, e + 5) =~= raw@.subrange(i as int, i + 5));
        }
        i += 1;
    }
    proof {
        assert forall|j: int| #[trigger] has_prefix_at(rest, j, front_close()) implies false by {
            if j >= i - 4 {
                assert(j + 5 <= rest.len());
            }
        }
    }
    (to_owned_string(raw), None)
}

} // verus!

verus! {

/// The name a path shows: its last component, or nothing.
pub open spec fn shown_name(path: Seq<char>) -> Seq<char> {
    match file_name(path) {
        Some(n) => n,
        None => Seq::empty(),
    }
}

/// The slide made from the file at `path`: its body parsed with relative
/// images resolved against `dir`, titled by its first heading or else by its
/// file name.
pub fn build_slide(
    slide_id: usize,
    path: String,
    dir: &str,
    body: &str,
    frontmatter: SlideFrontmatter,
) -> (r: Result<Slide, ParseError>)
    ensures
        match r {
            Ok(s) => markdown_events(body@).len() <= max_events() && s@.id == slide_id && s@.path
                == path@ && s@.name == shown_name(path@) && s@.title == (match title_of(
                document_of(markdown_events(body@), dir@).blocks,
            ) {
                Some(t) => t,
                None => fallback_title_of(path@),
            }) && s@.layout == frontmatter.layout.deep_view() && s@.blocks == document_of(
                markdown_events(body@),
                dir@,
            ).blocks && s@.assets == document_of(markdown_events(body@), dir@).assets,
            Err(e) => e == ParseError::TooManyEvents && markdown_events(body@).len() > max_events(),
        },
{
    let document = match parse_slide(body, dir, slide_id) {
        Ok(d) => d,
        Err(e) => {
            return Err(e);
        },
    };
    let title = match slide_title(&document) {
        Some(t) => t,
        None => fallback_title(path.as_str()),
    };
    let name = match path_file_name(path.as_str()) {
        Some(n) => n,
        None => String::new(),
    };
    Ok(
        Slide {
            id: slide_id,
            path,
            name,
            title,
            frontmatter,
            blocks: document.blocks,
            assets: document.assets,
        },
    )
}

/// A deck's title: the name of its directory, or `ss`.
pub open spec fn deck_title(root: Seq<char>) -> Seq<char> {
    match file_name(root) {
        Some(n) => n,
        None => "ss"@,
    }
}

/// The deck of the slides of directory `root`.
pub fn assemble_deck(root: String, slides: Vec<Slide>) -> (r: Deck)
    ensures
        r@.root == root@,
        r@.title == deck_title(root@),
        r@.slides == slides.deep_view(),
{
    let title = match path_file_name(root.as_str()) {
        Some(n) => n,
        None => to_owned_string("ss"),
    };
    Deck { root, metadata: DeckMetadata { title }, slides }
}

} // verus!

verus! {

/// The position of the last `c` in `s`, or -1.
pub open spec fn last_index_of(s: Seq<char>, c: char) -> int
    decreases s.len(),
{
    if s.len() == 0 {
        -1
    } else if s.last() == c {
        s.len() - 1
    } else {
        last_index_of(s.drop_last(), c)
    }
}

/// The position of the last `c` in `s`.
pub fn find_last(s: &Vec<char>, c: char) -> (r: Option<usize>)
    ensures
        r matches Some(k) ==> k == last_index_of(s@, c) && k < s.len(),
        r is None ==> last_index_of(s@, c) == -1,
{
    let mut k: usize = s.len();
    assert(s@.take(k as int) =~= s@);
    while k > 0
        invariant
            k <= s.len(),
            last_index_of(s@, c) == last_index_of(s@.take(k as int), c),
        decreases k,
    {
        assert(s@.take(k as int).last() == s@[k - 1]);
        assert(s@.take(k as int).drop_last() =~= s@.take(k - 1));
        if s[k - 1] == c {
            return Some(k - 1);
        }
        k -= 1;
    }
    None
}

} // verus!

verus! {

// ---------------------------------------------------------------------------
// The natural order is a total preorder
// ---------------------------------------------------------------------------

/// `o` puts the first no later than the second.
pub open spec fn not_after(o: Order) -> bool {
    o != Order::Greater
}

proof fn lemma_text_order_trans(a: Seq<char>, b: Seq<char>, c: Seq<char>)
    ensures
        not_after(text_order(a, b)) && not_after(text_order(b, c)) ==> not_after(text_order(a, c)),
        (text_order(a, b) == Order::Less && not_after(text_order(b, c))) ==> text_order(a, c)
            == Order::Less,
        (not_after(text_order(a, b)) && text_order(b, c) == Order::Less) ==> text_order(a, c)
            == Order::Less,
    decreases a.len(),
{
    if a.len() > 0 && b.len() > 0 && c.len() > 0 {
        lemma_text_order_trans(a.drop_first(), b.drop_first(), c.drop_first());
    }
}

proof fn lemma_token_order_trans(a: TokenModel, b: TokenModel, c: TokenModel)
    ensures
        not_after(token_order(a, b)) && not_after(token_order(b, c)) ==> not_after(token_order(a, c)),
        (token_order(a, b) == Order::Less && not_after(token_order(b, c))) ==> token_order(a, c)
            == Order::Less,
        (not_after(token_order(a, b)) && token_order(b, c) == Order::Less) ==> token_order(a, c)
            == Order::Less,
        (token_order(a, b) == Order::Equal && token_order(b, c) == Order::Equal) ==> token_order(a, c)
            == Order::Equal,
{
    match (a, b, c) {
        (TokenModel::Text(x), TokenModel::Text(y), TokenModel::Text(z)) => {
            lemma_text_order_trans(x, y, z);
            lemma_text_order_equal(x, y);
            lemma_text_order_equal(y, z);
        },
        _ => {},
    }
}

proof fn lemma_text_order_equal(a: Seq<char>, b: Seq<char>)
    ensures
        text_order(a, b) == Order::Equal ==> a == b,
    decreases a.len(),
{
    if a.len() > 0 && b.len() > 0 && a[0] == b[0] {
        lemma_text_order_equal(a.drop_first(), b.drop_first());
        if text_order(a, b) == Order::Equal {
            assert(a =~= seq![a[0]] + a.drop_first());
            assert(b =~= seq![b[0]] + b.drop_first());
        }
    }
}

proof fn lemma_tokens_order_trans(a: Seq<TokenModel>, b: Seq<TokenModel>, c: Seq<TokenModel>)
    ensures
        not_after(tokens_order(a, b)) && not_after(tokens_order(b, c)) ==> not_after(
            tokens_order(a, c),
        ),
        (tokens_order(a, b) == Order::Less && not_after(tokens_order(b, c))) ==> tokens_order(a, c)
            == Order::Less,
        (not_after(tokens_order(a, b)) && tokens_order(b, c) == Order::Less) ==> tokens_order(a, c)
            == Order::Less,
    decreases a.len(),
{
    if a.len() > 0 && b.len() > 0 && c.len() > 0 {
        lemma_token_order_trans(a[0], b[0], c[0]);
        lemma_tokens_order_trans(a.drop_first(), b.drop_first(), c.drop_first());
    }
}

/// The natural order is transitive: a name no later than a second, itself no
/// later than a third, is no later than the third (and strictly before it when
/// either step is strict).
pub proof fn lemma_natural_order_trans(a: Seq<char>, b: Seq<char>, c: Seq<char>)
    ensures
        not_after(natural_order(a, b)) && not_after(natural_order(b, c)) ==> not_after(
            natural_order(a, c),
        ),
        (natural_order(a, b) == Order::Less && not_after(natural_order(b, c))) ==> natural_order(a, c)
            == Order::Less,
        (not_after(natural_order(a, b)) && natural_order(b, c) == Order::Less) ==> natural_order(a, c)
            == Order::Less,
{
    reveal(natural_order);
    lemma_tokens_order_trans(tokens(a), tokens(b), tokens(c));
}

/// Names sorted pair by pair are sorted throughout: every name comes no later
/// than any name after it.
pub proof fn lemma_naturally_sorted_all(names: Seq<Seq<char>>)
    requires
        naturally_sorted(names),
    ensures
        forall|i: int, j: int|
            0 <= i < j < names.len() ==> not_after(natural_order(#[trigger] names[i], #[trigger] names[j])),
{
    assert forall|i: int, j: int| 0 <= i < j < names.len() implies not_after(
        natural_order(#[trigger] names[i], #[trigger] names[j]),
    ) by {
        lemma_sorted_from(names, i, j);
    }
}

proof fn lemma_sorted_from(names: Seq<Seq<char>>, i: int, j: int)
    requires
        naturally_sorted(names),
        0 <= i < j < names.len(),
    ensures
        not_after(natural_order(names[i], names[j])),
    decreases j - i,
{
    assert(natural_order(names[j - 1], names[j]) != Order::Greater);
    if i < j - 1 {
        lemma_sorted_from(names, i, j - 1);
        lemma_natural_order_trans(names[i], names[j - 1], names[j]);
    }
}

} // verus!
