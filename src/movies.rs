//! Movie records and the posting-list logic of a small full-text search.
use vstd::prelude::*;

verus! {

/// What `str::to_lowercase` makes of a text.
pub uninterp spec fn lower_of(s: Seq<char>) -> Seq<char>;

/// What the Porter stemmer makes of a word.
pub uninterp spec fn stem_of(s: Seq<char>) -> Seq<char>;

/// The pieces of `s` between occurrences of `sep`, as `str::split` gives
/// them: one more piece than there are separators.
pub open spec fn split_spec(s: Seq<char>, sep: char) -> Seq<Seq<char>>
    decreases s.len(),
{
    if s.len() == 0 {
        seq![Seq::<char>::empty()]
    } else {
        let p = split_spec(s.drop_last(), sep);
        if s.last() == sep {
            p.push(Seq::<char>::empty())
        } else {
            p.update(p.len() - 1, p.last().push(s.last()))
        }
    }
}

pub proof fn lemma_split_nonempty(s: Seq<char>, sep: char)
    ensures
        split_spec(s, sep).len() >= 1,
    decreases s.len(),
{
    if s.len() > 0 {
        lemma_split_nonempty(s.drop_last(), sep);
    }
}

/// Relies on `str::split` with a `char` pattern: the pieces between the
/// separators, in order, empty ones included.
#[verifier::external_body]
fn split_on(s: &str, sep: char) -> (r: Vec<String>)
    ensures
        r@.map_values(|p: String| p@) == split_spec(s@, sep),
{
    s.split(sep).map(|p| p.to_string()).collect()
}

/// Relies on `str::to_lowercase`: the result depends on the text alone, and
/// an empty text stays empty.
#[verifier::external_body]
fn lowercase(s: &str) -> (r: String)
    ensures
        r@ == lower_of(s@),
        s@.len() == 0 ==> r@.len() == 0,
{
    s.to_lowercase()
}

/// Relies on `porter_stemmer::stem`: the stem depends on the word alone.
#[verifier::external_body]
fn stem_word(s: &str) -> (r: String)
    ensures
        r@ == stem_of(s@),
{
    porter_stemmer::stem(s)
}

/// Relies on `String::push_str`: appends `s`.
#[verifier::external_body]
fn push_text(buf: &mut String, s: &str)
    ensures
        final(buf)@ == old(buf)@ + s@,
{
    buf.push_str(s);
}

/// A failure to read movie data, with a fixed message.
#[derive(Debug, PartialEq, Eq, Clone, Copy)]
pub struct StrError {
    pub msg: &'static str,
}

impl StrError {
    pub fn new(msg: &'static str) -> (r: StrError)
        ensures
            r.msg == msg,
    {
        StrError { msg }
    }

    /// The error that stands for a failed read.
    pub fn io_error() -> (r: StrError)
        ensures
            r.msg@ == "io error"@,
    {
        proof {
            reveal_strlit("io error");
        }
        StrError { msg: "io error" }
    }
}

/// A movie: its title and its description as lower-case word stems, each
/// followed by one space.
#[derive(Debug, PartialEq, Eq)]
pub struct Movie {
    pub title: String,
    pub desc: String,
}

/// The stems of `words`, each followed by a space.
pub open spec fn stemmed_text(words: Seq<Seq<char>>) -> Seq<char>
    decreases words.len(),
{
    if words.len() == 0 {
        Seq::empty()
    } else {
        stemmed_text(words.drop_last()) + stem_of(words.last()) + seq![' ']
    }
}

/// The description that a line with raw description `raw` gets.
pub open spec fn desc_of(raw: Seq<char>) -> Seq<char> {
    stemmed_text(split_spec(lower_of(raw), ' '))
}

impl Movie {
    /// Reads a line `title<TAB>description[<TAB>...]`. The description is
    /// lower-cased, split at spaces, and each word is replaced by its stem.
    pub fn parse_line(s: &str) -> (r: Result<Movie, StrError>)
        ensures
            r.is_ok() <==> split_spec(s@, '\t').len() >= 2,
            r.is_ok() ==> r.unwrap().title@ == split_spec(s@, '\t')[0] && r.unwrap().desc@
                == desc_of(split_spec(s@, '\t')[1]),
            r.is_err() ==> r.unwrap_err().msg@ == "No description found"@,
    {
        let parts = split_on(s, '\t');
        proof {
            lemma_split_nonempty(s@, '\t');
            assert(parts@.map_values(|p: String| p@).len() == parts@.len());
        }
        if parts.len() < 2 {
            proof {
                reveal_strlit("No description found");
            }
            return Err(StrError { msg: "No description found" });
        }
        let title = parts[0].clone();
        proof {
            assert(parts@.map_values(|p: String| p@)[0] == parts@[0]@);
            assert(parts@.map_values(|p: String| p@)[1] == parts@[1]@);
        }
        let desc_old = lowercase(parts[1].as_str());
        let words = split_on(desc_old.as_str(), ' ');
        let ghost ws = split_spec(desc_old@, ' ');
        let mut desc = String::new();
        let mut i: usize = 0;
        while i < words.len()
            invariant
                words@.map_values(|p: String| p@) == ws,
                0 <= i <= words.len(),
                desc@ == stemmed_text(ws.take(i as int)),
            decreases words.len() - i,
        {
            let stem = stem_word(words[i].as_str());
            push_text(&mut desc, stem.as_str());
            push_text(&mut desc, " ");
            proof {
                reveal_strlit(" ");
                assert(ws[i as int] == words@[i as int]@);
                assert(ws.take(i + 1).drop_last() =~= ws.take(i as int));
            }
            i = i + 1;
        }
        proof {
            assert(ws.take(i as int) =~= ws);
        }
        Ok(Movie { title, desc })
    }
}

impl std::str::FromStr for Movie {
    type Err = StrError;

    fn from_str(s: &str) -> Result<Movie, StrError> {
        Movie::parse_line(s)
    }
}

/// Each entry is smaller than the next.
pub open spec fn strictly_increasing(s: Seq<usize>) -> bool {
    forall|i: int, j: int| 0 <= i < j < s.len() ==> s[i] < s[j]
}

/// The list that the merge walk over `a` and `b` keeps: it drops the
/// smaller front entry, and keeps one copy of an entry that fronts both.
pub open spec fn merge_common(a: Seq<usize>, b: Seq<usize>) -> Seq<usize>
    decreases a.len() + b.len(),
{
    if a.len() == 0 || b.len() == 0 {
        Seq::empty()
    } else if a[0] > b[0] {
        merge_common(a, b.drop_first())
    } else if a[0] < b[0] {
        merge_common(a.drop_first(), b)
    } else {
        seq![a[0]] + merge_common(a.drop_first(), b.drop_first())
    }
}

/// `s` is `t` with some entries left out, the rest in order.
pub open spec fn is_subsequence(s: Seq<usize>, t: Seq<usize>) -> bool
    decreases t.len(),
{
    if s.len() == 0 {
        true
    } else if t.len() == 0 {
        false
    } else if s[0] == t[0] {
        is_subsequence(s.drop_first(), t.drop_first())
    } else {
        is_subsequence(s, t.drop_first())
    }
}

proof fn lemma_subsequence_extend(s: Seq<usize>, t: Seq<usize>, x: usize)
    requires
        is_subsequence(s, t),
    ensures
        is_subsequence(s, seq![x] + t),
    decreases t.len(), 1int,
{
    let t2 = seq![x] + t;
    assert(t2.drop_first() =~= t);
    if s.len() > 0 && s[0] == x {
        lemma_subsequence_drop_any(s, t);
    }
}

proof fn lemma_subsequence_drop_any(s: Seq<usize>, t: Seq<usize>)
    requires
        s.len() > 0,
        is_subsequence(s, t),
    ensures
        is_subsequence(s.drop_first(), t),
    decreases t.len(), 0int,
{
    assert(seq![t[0]] + t.drop_first() =~= t);
    if s[0] == t[0] {
        lemma_subsequence_extend(s.drop_first(), t.drop_first(), t[0]);
    } else {
        lemma_subsequence_drop_any(s, t.drop_first());
        lemma_subsequence_extend(s.drop_first(), t.drop_first(), t[0]);
    }
}

/// What the merge keeps is a subsequence of each list, and the same whichever
/// list comes first.
pub proof fn lemma_merge_common(a: Seq<usize>, b: Seq<usize>)
    ensures
        is_subsequence(merge_common(a, b), a),
        is_subsequence(merge_common(a, b), b),
        merge_common(a, b) == merge_common(b, a),
    decreases a.len() + b.len(),
{
    if a.len() > 0 && b.len() > 0 {
        let m = merge_common(a, b);
        if a[0] > b[0] {
            lemma_merge_common(a, b.drop_first());
            lemma_subsequence_extend(m, b.drop_first(), b[0]);
            assert(seq![b[0]] + b.drop_first() =~= b);
        } else if a[0] < b[0] {
            lemma_merge_common(a.drop_first(), b);
            lemma_subsequence_extend(m, a.drop_first(), a[0]);
            assert(seq![a[0]] + a.drop_first() =~= a);
        } else {
            lemma_merge_common(a.drop_first(), b.drop_first());
            assert(m.drop_first() =~= merge_common(a.drop_first(), b.drop_first()));
            assert(merge_common(b, a).drop_first() =~= merge_common(b.drop_first(), a.drop_first()));
            assert(merge_common(b, a) =~= m);
        }
    } else {
        assert(merge_common(b, a) =~= Seq::<usize>::empty());
    }
}

/// A list merged with itself is kept whole.
pub proof fn lemma_merge_self(a: Seq<usize>)
    ensures
        merge_common(a, a) == a,
    decreases a.len(),
{
    if a.len() > 0 {
        lemma_merge_self(a.drop_first());
        assert(seq![a[0]] + a.drop_first() =~= a);
    }
}

/// Of two strictly increasing lists, the merge keeps exactly the common
/// entries, in increasing order.
pub proof fn lemma_merge_sorted(a: Seq<usize>, b: Seq<usize>)
    requires
        strictly_increasing(a),
        strictly_increasing(b),
    ensures
        strictly_increasing(merge_common(a, b)),
        forall|x: usize| merge_common(a, b).contains(x) <==> a.contains(x) && b.contains(x),
    decreases a.len() + b.len(),
{
    let m = merge_common(a, b);
    if a.len() > 0 && b.len() > 0 {
        let a1 = a.drop_first();
        let b1 = b.drop_first();
        assert(strictly_increasing(a1)) by {
            assert forall|i: int, j: int| 0 <= i < j < a1.len() implies a1[i] < a1[j] by {
                assert(a[i + 1] < a[j + 1]);
            }
        }
        assert(strictly_increasing(b1)) by {
            assert forall|i: int, j: int| 0 <= i < j < b1.len() implies b1[i] < b1[j] by {
                assert(b[i + 1] < b[j + 1]);
            }
        }
        if a[0] > b[0] {
            lemma_merge_sorted(a, b1);
            assert forall|x: usize| m.contains(x) <==> a.contains(x) && b.contains(x) by {
                if b.contains(x) && !b1.contains(x) {
                    let k = choose|k: int| 0 <= k < b.len() && b[k] == x;
                    if k > 0 {
                        assert(b1[k - 1] == x);
                    }
                    if a.contains(x) {
                        let q = choose|q: int| 0 <= q < a.len() && a[q] == x;
                        if q > 0 {
                            assert(a[0] < a[q]);
                        }
                    }
                }
                if b1.contains(x) {
                    let k = choose|k: int| 0 <= k < b1.len() && b1[k] == x;
                    assert(b[k + 1] == x);
                }
            }
        } else if a[0] < b[0] {
            lemma_merge_sorted(a1, b);
            assert forall|x: usize| m.contains(x) <==> a.contains(x) && b.contains(x) by {
                if a.contains(x) && !a1.contains(x) {
                    let k = choose|k: int| 0 <= k < a.len() && a[k] == x;
                    if k > 0 {
                        assert(a1[k - 1] == x);
                    }
                    if b.contains(x) {
                        let q = choose|q: int| 0 <= q < b.len() && b[q] == x;
                        if q > 0 {
                            assert(b[0] < b[q]);
                        }
                    }
                }
                if a1.contains(x) {
                    let k = choose|k: int| 0 <= k < a1.len() && a1[k] == x;
                    assert(a[k + 1] == x);
                }
            }
        } else {
            lemma_merge_sorted(a1, b1);
            let r = merge_common(a1, b1);
            assert(m == seq![a[0]] + r);
            assert forall|x: usize| m.contains(x) <==> a.contains(x) && b.contains(x) by {
                if x == a[0] {
                    assert(m[0] == x);
                    assert(b[0] == x);
                } else {
                    if m.contains(x) {
                        let k = choose|k: int| 0 <= k < m.len() && m[k] == x;
                        assert(m[0] == a[0]);
                        assert(k != 0);
                        assert(r[k - 1] == x);
                        assert(r.contains(x));
                        assert(a1.contains(x) && b1.contains(x));
                        let p = choose|p: int| 0 <= p < a1.len() && a1[p] == x;
                        assert(a[p + 1] == x);
                        let q = choose|q: int| 0 <= q < b1.len() && b1[q] == x;
                        assert(b[q + 1] == x);
                    }
                    if a.contains(x) && b.contains(x) {
                        let p = choose|p: int| 0 <= p < a.len() && a[p] == x;
                        let q = choose|q: int| 0 <= q < b.len() && b[q] == x;
                        assert(b[0] == a[0]);
                        assert(p > 0 && q > 0);
                        assert(a1[p - 1] == x);
                        assert(b1[q - 1] == x);
                        assert(a1.contains(x));
                        assert(b1.contains(x));
                        assert(r.contains(x));
                        let k = choose|k: int| 0 <= k < r.len() && r[k] == x;
                        assert(m[k + 1] == x);
                    }
                }
            }
            assert forall|i: int, j: int| 0 <= i < j < m.len() implies m[i] < m[j] by {
                if i > 0 {
                    assert(r[i - 1] < r[j - 1]);
                } else {
                    assert(r.contains(r[j - 1]));
                    assert(a1.contains(r[j - 1]));
                    let p = choose|p: int| 0 <= p < a1.len() && a1[p] == r[j - 1];
                    assert(a[0] < a[p + 1]);
                }
            }
        }
    }
}

/// The entries common to both lists, found by one merge walk: the result is
/// a subsequence of each list, the same whichever list comes first, the list
/// itself when both are equal, and, when both lists are strictly
/// increasing, exactly their common entries in increasing order.
pub fn intersect(list_a: &[usize], list_b: &[usize]) -> (r: Vec<usize>)
    ensures
        r@ == merge_common(list_a@, list_b@),
        is_subsequence(r@, list_a@),
        is_subsequence(r@, list_b@),
        r@ == merge_common(list_b@, list_a@),
        list_a@ == list_b@ ==> r@ == list_a@,
        strictly_increasing(list_a@) && strictly_increasing(list_b@) ==> strictly_increasing(r@),
        strictly_increasing(list_a@) && strictly_increasing(list_b@) ==> forall|x: usize|
            r@.contains(x) <==> list_a@.contains(x) && list_b@.contains(x),
{
    let a = list_a;
    let b = list_b;
    let mut result: Vec<usize> = Vec::new();
    let mut i: usize = 0;
    let mut j: usize = 0;
    proof {
        assert(a@.subrange(0, a.len() as int) =~= a@);
        assert(b@.subrange(0, b.len() as int) =~= b@);
        assert(result@ + merge_common(a@, b@) =~= merge_common(a@, b@));
    }
    while i < a.len() && j < b.len()
        invariant
            0 <= i <= a.len(),
            0 <= j <= b.len(),
            result@ + merge_common(a@.subrange(i as int, a.len() as int), b@.subrange(j as int, b.len() as int))
                == merge_common(a@, b@),
        decreases a.len() + b.len() - i - j,
    {
        let ghost ar = a@.subrange(i as int, a.len() as int);
        let ghost br = b@.subrange(j as int, b.len() as int);
        proof {
            assert(ar.drop_first() =~= a@.subrange(i + 1, a.len() as int));
            assert(br.drop_first() =~= b@.subrange(j + 1, b.len() as int));
            assert(ar[0] == a@[i as int]);
            assert(br[0] == b@[j as int]);
        }
        let va = a[i];
        let vb = b[j];
        if va > vb {
            j = j + 1;
        } else if va < vb {
            i = i + 1;
        } else {
            let ghost r0 = result@;
            result.push(va);
            proof {
                assert(result@ + merge_common(ar.drop_first(), br.drop_first()) =~= r0 + (seq![va]
                    + merge_common(ar.drop_first(), br.drop_first())));
            }
            i = i + 1;
            j = j + 1;
        }
    }
    proof {
        let ar = a@.subrange(i as int, a.len() as int);
        let br = b@.subrange(j as int, b.len() as int);
        assert(merge_common(ar, br) =~= Seq::<usize>::empty());
        assert(result@ =~= merge_common(a@, b@));
        lemma_merge_common(a@, b@);
        if a@ == b@ {
            lemma_merge_self(a@);
        }
        if strictly_increasing(a@) && strictly_increasing(b@) {
            lemma_merge_sorted(a@, b@);
        }
    }
    result
}

/// A character of the Unicode `White_Space` property, which
/// `char::is_whitespace` tests.
pub open spec fn is_white_space(c: char) -> bool {
    let v = c as u32;
    (0x9 <= v <= 0xd) || v == 0x20 || v == 0x85 || v == 0xa0 || v == 0x1680 || (0x2000 <= v
        <= 0x200a) || v == 0x2028 || v == 0x2029 || v == 0x202f || v == 0x205f || v == 0x3000
}

/// `s` without its leading white space.
pub open spec fn trim_start_of(s: Seq<char>) -> Seq<char>
    decreases s.len(),
{
    if s.len() > 0 && is_white_space(s[0]) {
        trim_start_of(s.drop_first())
    } else {
        s
    }
}

/// `s` without its trailing white space.
pub open spec fn trim_end_of(s: Seq<char>) -> Seq<char>
    decreases s.len(),
{
    if s.len() > 0 && is_white_space(s.last()) {
        trim_end_of(s.drop_last())
    } else {
        s
    }
}

/// `s` without its leading and trailing white space.
pub open spec fn trimmed(s: Seq<char>) -> Seq<char> {
    trim_end_of(trim_start_of(s))
}

/// Relies on `str::trim`: the text without leading and trailing characters
/// for which `char::is_whitespace` holds.
#[verifier::external_body]
fn trim_text(s: &str) -> (r: &str)
    ensures
        r@ == trimmed(s@),
{
    s.trim()
}

/// `needle` occurs in `hay`.
pub open spec fn occurs_in(hay: Seq<char>, needle: Seq<char>) -> bool {
    exists|i: int| 0 <= i && i + needle.len() <= hay.len() && #[trigger] hay.subrange(i, i + needle.len()) == needle
}

/// Relies on `str::contains` with a `&str` pattern: whether `needle` occurs
/// in `hay`.
#[verifier::external_body]
fn has_text(hay: &str, needle: &str) -> (r: bool)
    ensures
        r == occurs_in(hay@, needle@),
{
    hay.contains(needle)
}

/// The words of a description: its pieces between spaces.
pub open spec fn words_of(desc: Seq<char>) -> Seq<Seq<char>> {
    split_spec(desc, ' ')
}

/// The positions of the descriptions in `descs` that have the word `w`, in
/// increasing order.
pub open spec fn postings(descs: Seq<Seq<char>>, w: Seq<char>) -> Seq<usize>
    decreases descs.len(),
{
    if descs.len() == 0 {
        Seq::empty()
    } else if words_of(descs.last()).contains(w) {
        postings(descs.drop_last(), w).push((descs.len() - 1) as usize)
    } else {
        postings(descs.drop_last(), w)
    }
}

pub open spec fn descs_of(movies: Seq<Movie>) -> Seq<Seq<char>> {
    movies.map_values(|m: Movie| m.desc@)
}

/// The list that `lists` pairs with the word `w` of `words`, if any.
spec fn lookup_in(words: Seq<String>, lists: Seq<Vec<usize>>, w: Seq<char>) -> Option<Seq<usize>> {
    if exists|p: int| 0 <= p < words.len() && #[trigger] words[p]@ == w {
        let p = choose|p: int| 0 <= p < words.len() && #[trigger] words[p]@ == w;
        Some(lists[p]@)
    } else {
        None
    }
}

spec fn unique_words(words: Seq<String>) -> bool {
    forall|p: int, q: int| 0 <= p < q < words.len() ==> #[trigger] words[p]@ != #[trigger] words[q]@
}

proof fn lemma_lookup_at(words: Seq<String>, lists: Seq<Vec<usize>>, p: int)
    requires
        unique_words(words),
        0 <= p < words.len(),
    ensures
        lookup_in(words, lists, words[p]@) == Some(lists[p]@),
{
    let w = words[p]@;
    let q = choose|q: int| 0 <= q < words.len() && #[trigger] words[q]@ == w;
    if q < p {
        assert(words[q]@ != words[p]@);
    } else if p < q {
        assert(words[p]@ != words[q]@);
    }
}

proof fn lemma_lookup_update(
    words: Seq<String>,
    lists: Seq<Vec<usize>>,
    p: int,
    nl: Vec<usize>,
    w: Seq<char>,
)
    requires
        unique_words(words),
        0 <= p < words.len(),
        words.len() == lists.len(),
        w != words[p]@,
    ensures
        lookup_in(words, lists.update(p, nl), w) == lookup_in(words, lists, w),
{
    if exists|q: int| 0 <= q < words.len() && #[trigger] words[q]@ == w {
        let q = choose|q: int| 0 <= q < words.len() && #[trigger] words[q]@ == w;
        assert(q != p);
        assert(lists.update(p, nl)[q] == lists[q]);
    }
}

proof fn lemma_lookup_push(
    words: Seq<String>,
    lists: Seq<Vec<usize>>,
    s: String,
    nl: Vec<usize>,
    w: Seq<char>,
)
    requires
        unique_words(words),
        words.len() == lists.len(),
        forall|p: int| 0 <= p < words.len() ==> #[trigger] words[p]@ != s@,
    ensures
        unique_words(words.push(s)),
        lookup_in(words.push(s), lists.push(nl), w) == if w == s@ {
            Some(nl@)
        } else {
            lookup_in(words, lists, w)
        },
{
    let w2 = words.push(s);
    let l2 = lists.push(nl);
    assert forall|p: int, q: int| 0 <= p < q < w2.len() implies #[trigger] w2[p]@ != #[trigger] w2[q]@ by {
        if q == words.len() {
            assert(w2[p] == words[p]);
        } else {
            assert(w2[p] == words[p] && w2[q] == words[q]);
        }
    }
    if w == s@ {
        lemma_lookup_at(w2, l2, words.len() as int);
        assert(w2[words.len() as int] == s);
    } else {
        if exists|q: int| 0 <= q < words.len() && #[trigger] words[q]@ == w {
            let q = choose|q: int| 0 <= q < words.len() && #[trigger] words[q]@ == w;
            assert(w2[q] == words[q]);
            lemma_lookup_at(words, lists, q);
            lemma_lookup_at(w2, l2, q);
            assert(l2[q] == lists[q]);
        } else {
            assert forall|q: int| 0 <= q < w2.len() implies #[trigger] w2[q]@ != w by {
                if q < words.len() {
                    assert(w2[q] == words[q]);
                }
            }
        }
    }
}

/// For each word of the movie descriptions, the movies whose description has
/// it, in increasing order.
pub struct InvertedIndex {
    words: Vec<String>,
    lists: Vec<Vec<usize>>,
}

impl InvertedIndex {
    /// The list of movies for word `w`, if some movie has it.
    pub closed spec fn lookup(&self, w: Seq<char>) -> Option<Seq<usize>> {
        lookup_in(self.words@, self.lists@, w)
    }

    pub closed spec fn well_formed(&self) -> bool {
        &&& self.words.len() == self.lists.len()
        &&& unique_words(self.words@)
    }

    /// The words are distinct and every list is strictly increasing.
    pub closed spec fn valid(&self) -> bool {
        &&& self.well_formed()
        &&& forall|p: int| 0 <= p < self.lists.len() ==> strictly_increasing(#[trigger] self.lists@[p]@)
    }

    /// Every list is strictly increasing and names one of `n` movies.
    pub closed spec fn wf(&self, n: int) -> bool {
        &&& self.valid()
        &&& forall|p: int, k: int|
            0 <= p < self.lists.len() && 0 <= k < self.lists@[p].len() ==> #[trigger] self.lists@[p]@[k] < n
    }

    /// The list of a word that the index knows is strictly increasing.
    pub proof fn lemma_valid_list(&self, w: Seq<char>)
        requires
            self.valid(),
            self.lookup(w) is Some,
        ensures
            strictly_increasing(self.lookup(w)->Some_0),
    {
        let p = choose|p: int| 0 <= p < self.words.len() && #[trigger] self.words@[p]@ == w;
        assert(self.lookup(w)->Some_0 == self.lists@[p]@);
    }

    fn find(&self, w: &String) -> (r: Option<usize>)
        ensures
            r.is_some() ==> r.unwrap() < self.words.len() && self.words@[r.unwrap() as int]@ == w@,
            r.is_none() ==> forall|p: int| 0 <= p < self.words.len() ==> #[trigger] self.words@[p]@ != w@,
    {
        let mut p: usize = 0;
        while p < self.words.len()
            invariant
                0 <= p <= self.words.len(),
                forall|q: int| 0 <= q < p ==> #[trigger] self.words@[q]@ != w@,
            decreases self.words.len() - p,
        {
            if self.words[p] == *w {
                return Some(p);
            }
            p = p + 1;
        }
        None
    }

    /// The list for `w`, if some movie has it.
    pub fn get(&self, w: &String) -> (r: Option<&Vec<usize>>)
        requires
            self.well_formed(),
        ensures
            match r {
                Some(l) => self.lookup(w@) == Some(l@),
                None => self.lookup(w@) is None,
            },
    {
        match self.find(w) {
            Some(p) => {
                proof {
                    lemma_lookup_at(self.words@, self.lists@, p as int);
                }
                Some(&self.lists[p])
            },
            None => None,
        }
    }
}

/// The expected list for `w` after all words of the first `i` movies and the
/// first `k` words of movie `i`.
spec fn partial_postings(descs: Seq<Seq<char>>, i: int, k: int, w: Seq<char>) -> Seq<usize> {
    if words_of(descs[i]).take(k).contains(w) {
        postings(descs.take(i), w).push(i as usize)
    } else {
        postings(descs.take(i), w)
    }
}

/// A list, when it has an entry.
pub open spec fn as_found(l: Seq<usize>) -> Option<Seq<usize>> {
    if l.len() > 0 {
        Some(l)
    } else {
        None
    }
}

proof fn lemma_postings_bounded(descs: Seq<Seq<char>>, w: Seq<char>)
    requires
        descs.len() <= usize::MAX,
    ensures
        strictly_increasing(postings(descs, w)),
        forall|k: int| 0 <= k < postings(descs, w).len() ==> #[trigger] postings(descs, w)[k] < descs.len(),
    decreases descs.len(),
{
    if descs.len() > 0 {
        let d = descs.drop_last();
        lemma_postings_bounded(d, w);
        let p0 = postings(d, w);
        let p = postings(descs, w);
        if words_of(descs.last()).contains(w) {
            assert(p == p0.push((descs.len() - 1) as usize));
            assert forall|a: int, b: int| 0 <= a < b < p.len() implies p[a] < p[b] by {
                if b < p0.len() {
                    assert(p0[a] < p0[b]);
                } else {
                    assert(p0[a] < d.len());
                }
            }
        }
    }
}

proof fn lemma_partial_next(descs: Seq<Seq<char>>, i: int, k: int, w0: Seq<char>, w: Seq<char>)
    requires
        0 <= i < descs.len(),
        0 <= k < words_of(descs[i]).len(),
        words_of(descs[i])[k] == w0,
        w != w0,
    ensures
        partial_postings(descs, i, k + 1, w) == partial_postings(descs, i, k, w),
{
    let ws = words_of(descs[i]);
    assert(ws.take(k + 1) =~= ws.take(k).push(w0));
    if ws.take(k + 1).contains(w) {
        let j = choose|j: int| 0 <= j < k + 1 && #[trigger] ws.take(k + 1)[j] == w;
        assert(j < k);
        assert(ws.take(k)[j] == w);
    }
    if ws.take(k).contains(w) {
        let j = choose|j: int| 0 <= j < k && #[trigger] ws.take(k)[j] == w;
        assert(ws.take(k + 1)[j] == w);
    }
}

proof fn lemma_partial_own(descs: Seq<Seq<char>>, i: int, k: int, w0: Seq<char>)
    requires
        0 <= i < descs.len(),
        0 <= k < words_of(descs[i]).len(),
        words_of(descs[i])[k] == w0,
    ensures
        partial_postings(descs, i, k + 1, w0) == postings(descs.take(i), w0).push(i as usize),
{
    let ws = words_of(descs[i]);
    assert(ws.take(k + 1)[k] == w0);
}

/// Builds the index of the descriptions of `movies`.
pub fn build_inverted_index(movies: &[Movie]) -> (r: InvertedIndex)
    ensures
        r.wf(movies@.len() as int),
        r.valid(),
        forall|w: Seq<char>| #[trigger] r.lookup(w) == as_found(postings(descs_of(movies@), w)),
{
    let ghost descs = descs_of(movies@);
    let mut index = InvertedIndex { words: Vec::new(), lists: Vec::new() };
    let mut i: usize = 0;
    proof {
        assert forall|w: Seq<char>| #[trigger] index.lookup(w) == as_found(postings(descs.take(0), w)) by {
            assert(descs.take(0).len() == 0);
        }
    }
    while i < movies.len()
        invariant
            descs == descs_of(movies@),
            0 <= i <= movies.len(),
            index.wf(i as int),
            forall|w: Seq<char>| #[trigger] index.lookup(w) == as_found(postings(descs.take(i as int), w)),
        decreases movies.len() - i,
    {
        let words = split_on(movies[i].desc.as_str(), ' ');
        let ghost ws = words_of(descs[i as int]);
        proof {
            assert(descs[i as int] == movies@[i as int].desc@);
            assert forall|w: Seq<char>| #[trigger] index.lookup(w) == as_found(
                partial_postings(descs, i as int, 0, w),
            ) by {
                assert(!ws.take(0).contains(w));
            }
            assert forall|p: int, j: int|
                0 <= p < index.lists.len() && 0 <= j < index.lists@[p].len() implies #[trigger] index.lists@[p]@[j]
                <= i by {
                assert(index.lists@[p]@[j] < i);
            }
        }
        let mut k: usize = 0;
        while k < words.len()
            invariant
                descs == descs_of(movies@),
                0 <= i < movies.len(),
                words@.map_values(|p: String| p@) == ws,
                ws == words_of(descs[i as int]),
                0 <= k <= words.len(),
                index.well_formed(),
                forall|p: int| 0 <= p < index.lists.len() ==> strictly_increasing(#[trigger] index.lists@[p]@),
                forall|p: int, j: int|
                    0 <= p < index.lists.len() && 0 <= j < index.lists@[p].len() ==> #[trigger] index.lists@[p]@[j]
                        <= i,
                forall|w: Seq<char>|
                    #[trigger] index.lookup(w) == as_found(partial_postings(descs, i as int, k as int, w)),
            decreases words.len() - k,
        {
            let word = &words[k];
            let ghost w0 = word@;
            let ghost old_words = index.words@;
            let ghost old_lists = index.lists@;
            proof {
                assert(ws[k as int] == words@[k as int]@);
                lemma_postings_bounded(descs.take(i as int), w0);
                lemma_partial_own(descs, i as int, k as int, w0);
                assert forall|w: Seq<char>| #[trigger] lookup_in(old_words, old_lists, w) == as_found(
                    partial_postings(descs, i as int, k as int, w),
                ) by {
                    assert(index.lookup(w) == as_found(partial_postings(descs, i as int, k as int, w)));
                }
            }
            match index.find(word) {
                Some(p) => {
                    let len = index.lists[p].len();
                    proof {
                        lemma_lookup_at(old_words, old_lists, p as int);
                        assert(old_lists[p as int]@ == partial_postings(descs, i as int, k as int, w0));
                    }
                    if index.lists[p][len - 1] != i {
                        let mut list = index.lists.remove(p);
                        proof {
                            assert(list@ == old_lists[p as int]@);
                            if ws.take(k as int).contains(w0) {
                                assert(list@.last() == i);
                            }
                        }
                        list.push(i);
                        index.lists.insert(p, list);
                        proof {
                            assert(index.lists@ =~= old_lists.update(p as int, list));
                            assert(list@ == partial_postings(descs, i as int, k + 1, w0));
                            lemma_lookup_at(old_words, index.lists@, p as int);
                            assert forall|w: Seq<char>| #[trigger] index.lookup(w) == as_found(
                                partial_postings(descs, i as int, k + 1, w),
                            ) by {
                                assert(index.words@ == old_words);
                                if w != w0 {
                                    lemma_lookup_update(old_words, old_lists, p as int, list, w);
                                    lemma_partial_next(descs, i as int, k as int, w0, w);
                                    assert(lookup_in(old_words, old_lists, w) == as_found(
                                        partial_postings(descs, i as int, k as int, w),
                                    ));
                                } else {
                                    assert(list@.len() > 0);
                                }
                            }
                            assert forall|q: int| 0 <= q < index.lists.len() implies strictly_increasing(
                                #[trigger] index.lists@[q]@,
                            ) by {
                                if q == p {
                                    let ol = old_lists[p as int]@;
                                    assert(ol.last() < i);
                                    assert forall|a: int, b: int| 0 <= a < b < list@.len() implies list@[a]
                                        < list@[b] by {
                                        if b < ol.len() {
                                            assert(ol[a] < ol[b]);
                                        } else if a < ol.len() - 1 {
                                            assert(ol[a] < ol[ol.len() - 1]);
                                        }
                                    }
                                } else {
                                    assert(index.lists@[q] == old_lists[q]);
                                }
                            }
                            assert forall|q: int, j: int|
                                0 <= q < index.lists.len() && 0 <= j < index.lists@[q].len() implies #[trigger] index.lists@[q]@[j]
                                <= i by {
                                if q == p {
                                    if j < old_lists[q].len() {
                                        assert(index.lists@[q]@[j] == old_lists[q]@[j]);
                                    }
                                } else {
                                    assert(index.lists@[q] == old_lists[q]);
                                }
                            }
                        }
                    } else {
                        proof {
                            let ol = old_lists[p as int]@;
                            if !ws.take(k as int).contains(w0) {
                                assert(ol == postings(descs.take(i as int), w0));
                                assert(ol[ol.len() - 1] < descs.take(i as int).len());
                            }
                            assert forall|w: Seq<char>| #[trigger] index.lookup(w) == as_found(
                                partial_postings(descs, i as int, k + 1, w),
                            ) by {
                                if w != w0 {
                                    lemma_partial_next(descs, i as int, k as int, w0, w);
                                }
                            }
                        }
                    }
                },
                None => {
                    proof {
                        assert(index.lookup(w0) is None);
                        assert(partial_postings(descs, i as int, k as int, w0).len() == 0);
                        assert(!ws.take(k as int).contains(w0));
                    }
                    let new_word = word.clone();
                    let mut list: Vec<usize> = Vec::new();
                    list.push(i);
                    index.words.push(new_word);
                    index.lists.push(list);
                    proof {
                        assert(new_word@ == w0);
                        assert(list@ == partial_postings(descs, i as int, k + 1, w0));
                        assert forall|w: Seq<char>| #[trigger] index.lookup(w) == as_found(
                            partial_postings(descs, i as int, k + 1, w),
                        ) by {
                            lemma_lookup_push(old_words, old_lists, new_word, list, w);
                            assert(index.words@ == old_words.push(new_word));
                            assert(index.lists@ == old_lists.push(list));
                            if w != w0 {
                                lemma_partial_next(descs, i as int, k as int, w0, w);
                                assert(lookup_in(old_words, old_lists, w) == as_found(
                                    partial_postings(descs, i as int, k as int, w),
                                ));
                            } else {
                                assert(list@.len() > 0);
                            }
                        }
                        lemma_lookup_push(old_words, old_lists, new_word, list, w0);
                        assert forall|q: int| 0 <= q < index.lists.len() implies strictly_increasing(
                            #[trigger] index.lists@[q]@,
                        ) by {
                            if q < old_lists.len() {
                                assert(index.lists@[q] == old_lists[q]);
                            }
                        }
                        assert forall|q: int, j: int|
                            0 <= q < index.lists.len() && 0 <= j < index.lists@[q].len() implies #[trigger] index.lists@[q]@[j]
                            <= i by {
                            if q < old_lists.len() {
                                assert(index.lists@[q] == old_lists[q]);
                            }
                        }
                    }
                },
            }
            k = k + 1;
        }
        proof {
            let d1 = descs.take(i + 1);
            assert(d1.drop_last() =~= descs.take(i as int));
            assert(d1.last() == descs[i as int]);
            assert(ws.take(k as int) =~= ws);
            assert forall|w: Seq<char>| #[trigger] index.lookup(w) == as_found(postings(d1, w)) by {
                assert(partial_postings(descs, i as int, k as int, w) == postings(d1, w));
            }
            assert forall|p: int, j: int|
                0 <= p < index.lists.len() && 0 <= j < index.lists@[p].len() implies #[trigger] index.lists@[p]@[j]
                < i + 1 by {
                assert(index.lists@[p]@[j] <= i);
            }
        }
        i = i + 1;
    }
    proof {
        assert(descs.take(i as int) =~= descs);
    }
    index
}

/// The stemmed words of a query: lower-cased, trimmed, split at spaces.
pub open spec fn query_words(q: Seq<char>) -> Seq<Seq<char>> {
    split_spec(trimmed(lower_of(q)), ' ').map_values(|w: Seq<char>| stem_of(w))
}

/// `x` is in the list of every word of `ws` that the index knows, and the
/// index knows one of them.
pub open spec fn matches_all(index: &InvertedIndex, ws: Seq<Seq<char>>, x: usize) -> bool {
    &&& exists|j: int| 0 <= j < ws.len() && #[trigger] index.lookup(ws[j]) is Some
    &&& forall|j: int|
        0 <= j < ws.len() && #[trigger] index.lookup(ws[j]) is Some ==> (index.lookup(ws[j])->Some_0).contains(x)
}

fn copy_list(l: &Vec<usize>) -> (r: Vec<usize>)
    ensures
        r@ == l@,
{
    let mut r: Vec<usize> = Vec::new();
    let mut i: usize = 0;
    while i < l.len()
        invariant
            0 <= i <= l.len(),
            r@ == l@.take(i as int),
        decreases l.len() - i,
    {
        r.push(l[i]);
        proof {
            assert(l@.take(i + 1) =~= l@.take(i as int).push(l@[i as int]));
        }
        i = i + 1;
    }
    proof {
        assert(l@.take(i as int) =~= l@);
    }
    r
}

/// The movies whose descriptions hold every stemmed word of `query` that the
/// index knows, in increasing order; none when it knows no word of it.
pub fn query_matches(index: &InvertedIndex, query: &str) -> (r: Vec<usize>)
    requires
        index.valid(),
    ensures
        strictly_increasing(r@),
        forall|x: usize| r@.contains(x) <==> matches_all(index, query_words(query@), x),
{
    let lowered = lowercase(query);
    let bare = trim_text(lowered.as_str());
    let words = split_on(bare, ' ');
    let ghost ws = query_words(query@);
    let ghost raw = split_spec(trimmed(lower_of(query@)), ' ');
    let mut result: Option<Vec<usize>> = None;
    let mut j: usize = 0;
    proof {
        assert(words@.map_values(|p: String| p@) == raw);
        assert(ws.len() == raw.len());
    }
    while j < words.len()
        invariant
            index.valid(),
            words@.map_values(|p: String| p@) == raw,
            ws == raw.map_values(|w: Seq<char>| stem_of(w)),
            ws.len() == words.len(),
            0 <= j <= words.len(),
            result.is_none() ==> forall|j2: int| 0 <= j2 < j ==> #[trigger] index.lookup(ws[j2]) is None,
            result.is_some() ==> exists|j2: int| 0 <= j2 < j && #[trigger] index.lookup(ws[j2]) is Some,
            result.is_some() ==> strictly_increasing(result.unwrap()@),
            result.is_some() ==> forall|x: usize|
                result.unwrap()@.contains(x) <==> matches_all(index, ws.take(j as int), x),
        decreases words.len() - j,
    {
        let stem = stem_word(words[j].as_str());
        proof {
            assert(raw[j as int] == words@[j as int]@);
            assert(ws[j as int] == stem@);
        }
        let ghost before = result;
        match index.get(&stem) {
            Some(list) => {
                proof {
                    index.lemma_valid_list(stem@);
                }
                let next = match result {
                    None => copy_list(list),
                    Some(r) => intersect(list.as_slice(), r.as_slice()),
                };
                proof {
                    let wt = ws.take(j + 1);
                    assert forall|x: usize| next@.contains(x) <==> matches_all(index, wt, x) by {
                        assert(wt[j as int] == ws[j as int]);
                        assert(index.lookup(wt[j as int]) is Some);
                        if before.is_none() {
                            if matches_all(index, wt, x) {
                                assert(list@.contains(x));
                            }
                            if next@.contains(x) {
                                assert forall|j2: int|
                                    0 <= j2 < wt.len() && #[trigger] index.lookup(wt[j2]) is Some implies (
                                    index.lookup(wt[j2])->Some_0).contains(x) by {
                                    if j2 < j {
                                        assert(wt[j2] == ws[j2]);
                                    }
                                }
                            }
                        } else {
                            let old_r = before.unwrap();
                            if matches_all(index, wt, x) {
                                assert(list@.contains(x));
                                let j3 = choose|j3: int| 0 <= j3 < wt.len() && #[trigger] index.lookup(wt[j3]) is Some;
                                let j4 = choose|j4: int| 0 <= j4 < j && #[trigger] index.lookup(ws[j4]) is Some;
                                assert(ws.take(j as int)[j4] == ws[j4]);
                                assert forall|j2: int|
                                    0 <= j2 < ws.take(j as int).len() && #[trigger] index.lookup(ws.take(j as int)[j2]) is Some implies (
                                    index.lookup(ws.take(j as int)[j2])->Some_0).contains(x) by {
                                    assert(wt[j2] == ws.take(j as int)[j2]);
                                }
                                assert(matches_all(index, ws.take(j as int), x));
                            }
                            if next@.contains(x) {
                                assert(old_r@.contains(x));
                                assert(matches_all(index, ws.take(j as int), x));
                                let j4 = choose|j4: int| 0 <= j4 < ws.take(j as int).len() && #[trigger] index.lookup(ws.take(j as int)[j4]) is Some;
                                assert(wt[j4] == ws.take(j as int)[j4]);
                                assert forall|j2: int|
                                    0 <= j2 < wt.len() && #[trigger] index.lookup(wt[j2]) is Some implies (
                                    index.lookup(wt[j2])->Some_0).contains(x) by {
                                    if j2 < j {
                                        assert(wt[j2] == ws.take(j as int)[j2]);
                                    }
                                }
                            }
                        }
                    }
                }
                result = Some(next);
            },
            None => {
                proof {
                    let wt = ws.take(j + 1);
                    if before.is_some() {
                        let old_r = before.unwrap();
                        assert forall|x: usize| old_r@.contains(x) <==> matches_all(index, wt, x) by {
                            assert(wt[j as int] == ws[j as int]);
                            if matches_all(index, ws.take(j as int), x) {
                                let j4 = choose|j4: int| 0 <= j4 < ws.take(j as int).len() && #[trigger] index.lookup(ws.take(j as int)[j4]) is Some;
                                assert(wt[j4] == ws.take(j as int)[j4]);
                                assert forall|j2: int|
                                    0 <= j2 < wt.len() && #[trigger] index.lookup(wt[j2]) is Some implies (
                                    index.lookup(wt[j2])->Some_0).contains(x) by {
                                    if j2 < j {
                                        assert(wt[j2] == ws.take(j as int)[j2]);
                                    }
                                }
                            }
                            if matches_all(index, wt, x) {
                                let j4 = choose|j4: int| 0 <= j4 < wt.len() && #[trigger] index.lookup(wt[j4]) is Some;
                                assert(j4 < j);
                                assert(wt[j4] == ws.take(j as int)[j4]);
                                assert forall|j2: int|
                                    0 <= j2 < ws.take(j as int).len() && #[trigger] index.lookup(ws.take(j as int)[j2]) is Some implies (
                                    index.lookup(ws.take(j as int)[j2])->Some_0).contains(x) by {
                                    assert(wt[j2] == ws.take(j as int)[j2]);
                                }
                            }
                        }
                    }
                }
            },
        }
        j = j + 1;
    }
    proof {
        assert(ws.take(j as int) =~= ws);
    }
    match result {
        Some(r) => r,
        None => {
            proof {
                assert forall|x: usize| !matches_all(index, ws, x) by {
                    if matches_all(index, ws, x) {
                        let j4 = choose|j4: int| 0 <= j4 < ws.len() && #[trigger] index.lookup(ws[j4]) is Some;
                    }
                }
            }
            Vec::new()
        },
    }
}

/// The text that the plain scan looks for: the stem of the whole trimmed,
/// lower-cased query, between two spaces.
pub open spec fn scan_needle(q: Seq<char>) -> Seq<char> {
    seq![' '] + stem_of(trimmed(lower_of(q))) + seq![' ']
}

/// The movies whose description holds the stemmed query as a whole word
/// sequence, found by scanning every description, in increasing order.
pub fn naive_matches(movies: &[Movie], query: &str) -> (r: Vec<usize>)
    ensures
        strictly_increasing(r@),
        forall|x: usize|
            r@.contains(x) <==> x < movies@.len() && occurs_in(movies@[x as int].desc@, scan_needle(query@)),
{
    let lowered = lowercase(query);
    let stem = stem_word(trim_text(lowered.as_str()));
    let mut needle = String::new();
    push_text(&mut needle, " ");
    push_text(&mut needle, stem.as_str());
    push_text(&mut needle, " ");
    proof {
        reveal_strlit(" ");
        assert(needle@ =~= scan_needle(query@));
    }
    let mut result: Vec<usize> = Vec::new();
    let mut i: usize = 0;
    while i < movies.len()
        invariant
            needle@ == scan_needle(query@),
            0 <= i <= movies.len(),
            strictly_increasing(result@),
            forall|k: int| 0 <= k < result.len() ==> #[trigger] result@[k] < i,
            forall|x: usize|
                result@.contains(x) <==> x < i && occurs_in(movies@[x as int].desc@, scan_needle(query@)),
        decreases movies.len() - i,
    {
        if has_text(movies[i].desc.as_str(), needle.as_str()) {
            let ghost r0 = result@;
            proof {
                assert(forall|x: usize| r0.contains(x) <==> x < i && occurs_in(movies@[x as int].desc@, scan_needle(query@)));
            }
            result.push(i);
            proof {
                assert forall|x: usize| result@.contains(x) <==> x < i + 1 && occurs_in(
                    movies@[x as int].desc@,
                    scan_needle(query@),
                ) by {
                    if x == i {
                        assert(result@[result.len() - 1] == i);
                    } else {
                        if result@.contains(x) {
                            let k = choose|k: int| 0 <= k < result.len() && #[trigger] result@[k] == x;
                            assert(r0[k] == x);
                            assert(r0.contains(x));
                        }
                        if x < i && occurs_in(movies@[x as int].desc@, scan_needle(query@)) {
                            assert(r0.contains(x));
                            let k = choose|k: int| 0 <= k < r0.len() && #[trigger] r0[k] == x;
                            assert(result@[k] == x);
                        }
                    }
                }
            }
        } else {
            proof {
                assert forall|x: usize| result@.contains(x) <==> x < i + 1 && occurs_in(
                    movies@[x as int].desc@,
                    scan_needle(query@),
                ) by {
                    if result@.contains(x) {
                        let k = choose|k: int| 0 <= k < result.len() && #[trigger] result@[k] == x;
                        assert(result@[k] < i);
                    }
                }
            }
        }
        i = i + 1;
    }
    result
}

} // verus!
