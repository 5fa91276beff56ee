//! Text handling: comma-separated id lists, the hashtag token grammar
//! (`#word`, with further word groups joined by single hyphens), the
//! residual text left when hashtag tokens are stripped, and case folding
//! for the free-text filter.

use vstd::prelude::*;

verus! {

/// Appends one character to a string.
///
/// Relies on `String::push`: appends exactly the given character.
#[verifier::external_body]
fn push_char(s: &mut String, c: char)
    ensures
        final(s)@ == old(s)@.push(c),
{
    s.push(c);
}

/// The characters of a string, as a vector.
pub fn chars_of(s: &str) -> (v: Vec<char>)
    ensures
        v@ == s@,
{
    let n = s.unicode_len();
    let mut v: Vec<char> = Vec::new();
    let mut i: usize = 0;
    while i < n
        invariant
            i <= n,
            n == s@.len(),
            v@ =~= s@.take(i as int),
        decreases n - i,
    {
        v.push(s.get_char(i));
        proof {
            assert(v@ =~= s@.take(i as int + 1));
        }
        i = i + 1;
    }
    proof {
        assert(v@ =~= s@);
    }
    v
}

/// A string holding the given characters.
fn string_of(v: &Vec<char>, from: usize, to: usize) -> (s: String)
    requires
        from <= to <= v@.len(),
    ensures
        s@ == v@.subrange(from as int, to as int),
{
    let mut s = String::new();
    let mut i: usize = from;
    while i < to
        invariant
            from <= i <= to <= v@.len(),
            s@ =~= v@.subrange(from as int, i as int),
        decreases to - i,
    {
        push_char(&mut s, v[i]);
        proof {
            assert(s@ =~= v@.subrange(from as int, i as int + 1));
        }
        i = i + 1;
    }
    s
}

/// The fields of `s` split at every comma; a field may be empty.
pub open spec fn comma_fields(s: Seq<char>) -> Seq<Seq<char>>
    decreases s.len(),
{
    if s.len() == 0 {
        seq![Seq::empty()]
    } else {
        let init = comma_fields(s.drop_last());
        if s.last() == ',' {
            init.push(Seq::empty())
        } else {
            init.update(init.len() - 1, init.last().push(s.last()))
        }
    }
}

/// Splitting yields at least one field.
pub proof fn lemma_comma_fields_len(s: Seq<char>)
    ensures
        comma_fields(s).len() >= 1,
    decreases s.len(),
{
    if s.len() > 0 {
        lemma_comma_fields_len(s.drop_last());
    }
}

/// The fields of `fs` that are not empty, in order.
pub open spec fn nonempty_fields(fs: Seq<Seq<char>>) -> Seq<Seq<char>>
    decreases fs.len(),
{
    if fs.len() == 0 {
        Seq::empty()
    } else {
        let init = nonempty_fields(fs.drop_last());
        if fs.last().len() > 0 {
            init.push(fs.last())
        } else {
            init
        }
    }
}

/// What `extract_ids` returns: the non-empty comma-separated fields of
/// `s`, in order.
pub open spec fn extract_ids_spec(s: Seq<char>) -> Seq<Seq<char>> {
    nonempty_fields(comma_fields(s))
}

/// Splits at every comma, keeping empty fields.
pub fn split_commas(s: &str) -> (fields: Vec<String>)
    ensures
        fields.deep_view() == comma_fields(s@),
{
    let v = chars_of(s);
    let n = v.len();
    let mut fields: Vec<String> = Vec::new();
    let mut cur = String::new();
    proof {
        assert(v@.take(0) =~= Seq::<char>::empty());
    }
    let mut i: usize = 0;
    while i < n
        invariant
            i <= n,
            n == v@.len(),
            v@ == s@,
            comma_fields(v@.take(i as int)).len() >= 1,
            cur@ == comma_fields(v@.take(i as int)).last(),
            fields.deep_view() =~= comma_fields(v@.take(i as int)).drop_last(),
        decreases n - i,
    {
        let ghost fs = comma_fields(v@.take(i as int));
        proof {
            assert(v@.take(i as int + 1).drop_last() =~= v@.take(i as int));
            assert(v@.take(i as int + 1).last() == v@[i as int]);
            lemma_comma_fields_len(v@.take(i as int + 1));
        }
        let c = v[i];
        if c == ',' {
            fields.push(cur);
            cur = String::new();
            proof {
                let fs2 = comma_fields(v@.take(i as int + 1));
                assert(fs2 == fs.push(Seq::<char>::empty()));
                assert(fs2.drop_last() =~= fs);
                assert(fs.drop_last().push(fs.last()) =~= fs);
                assert(fields.deep_view() =~= fs2.drop_last());
            }
        } else {
            push_char(&mut cur, c);
            proof {
                let fs2 = comma_fields(v@.take(i as int + 1));
                assert(fs2 == fs.update(fs.len() - 1, fs.last().push(v@[i as int])));
                assert(fs2.drop_last() =~= fs.drop_last());
                assert(fs2.last() == fs.last().push(v@[i as int]));
            }
        }
        i = i + 1;
    }
    proof {
        assert(v@.take(n as int) =~= v@);
    }
    fields.push(cur);
    proof {
        let fs = comma_fields(v@);
        assert(fs.drop_last().push(fs.last()) =~= fs);
        assert(fields.deep_view() =~= fs);
    }
    fields
}

/// Splits a comma-separated list of ids, dropping empty fields.
pub fn extract_ids(s: &str) -> (ids: Vec<String>)
    ensures
        ids.deep_view() == extract_ids_spec(s@),
{
    let v = chars_of(s);
    let n = v.len();
    let mut ids: Vec<String> = Vec::new();
    let mut cur = String::new();
    proof {
        assert(v@.take(0) =~= Seq::<char>::empty());
    }
    let mut i: usize = 0;
    while i < n
        invariant
            i <= n,
            n == v@.len(),
            v@ == s@,
            comma_fields(v@.take(i as int)).len() >= 1,
            cur@ == comma_fields(v@.take(i as int)).last(),
            ids.deep_view() =~= nonempty_fields(
                comma_fields(v@.take(i as int)).drop_last(),
            ),
        decreases n - i,
    {
        let ghost fs = comma_fields(v@.take(i as int));
        proof {
            assert(v@.take(i as int + 1).drop_last() =~= v@.take(i as int));
            assert(v@.take(i as int + 1).last() == v@[i as int]);
            lemma_comma_fields_len(v@.take(i as int + 1));
        }
        let c = v[i];
        if c == ',' {
            if cur.unicode_len() > 0 {
                ids.push(cur);
            }
            cur = String::new();
            proof {
                let fs2 = comma_fields(v@.take(i as int + 1));
                assert(fs2 == fs.push(Seq::<char>::empty()));
                assert(fs2.drop_last() =~= fs);
                assert(fs.drop_last().push(fs.last()) =~= fs);
                assert(ids.deep_view() =~= nonempty_fields(fs2.drop_last()));
            }
        } else {
            push_char(&mut cur, c);
            proof {
                let fs2 = comma_fields(v@.take(i as int + 1));
                assert(fs2 == fs.update(fs.len() - 1, fs.last().push(v@[i as int])));
                assert(fs2.drop_last() =~= fs.drop_last());
                assert(fs2.last() == fs.last().push(v@[i as int]));
            }
        }
        i = i + 1;
    }
    proof {
        assert(v@.take(n as int) =~= v@);
    }
    if cur.unicode_len() > 0 {
        ids.push(cur);
        proof {
            let fs = comma_fields(v@);
            assert(fs.drop_last().push(fs.last()) =~= fs);
            assert(nonempty_fields(fs.drop_last()).push(fs.last()) =~= nonempty_fields(fs));
        }
    } else {
        proof {
            let fs = comma_fields(v@);
            assert(fs.drop_last().push(fs.last()) =~= fs);
            assert(nonempty_fields(fs.drop_last()) =~= nonempty_fields(fs));
        }
    }
    ids
}

/// What the standard library's Unicode classification counts as a letter
/// or digit; a function of the character alone.
pub uninterp spec fn unicode_alphanumeric(c: char) -> bool;

/// Whether the character is a Unicode letter or digit.
///
/// Relies on `char::is_alphanumeric`: the Unicode alphabetic and number
/// classes, locale-independent and a function of the character alone.
#[verifier::external_body]
fn alphanumeric(c: char) -> (r: bool)
    ensures
        r == unicode_alphanumeric(c),
{
    c.is_alphanumeric()
}

/// A word character of the hashtag grammar: a Unicode letter or digit, or
/// the underscore.
pub open spec fn is_word_char(c: char) -> bool {
    unicode_alphanumeric(c) || c == '_'
}

fn word_char(c: char) -> (r: bool)
    ensures
        r == is_word_char(c),
{
    alphanumeric(c) || c == '_'
}

/// Where the hashtag token starting inside a word run at `j` ends: word
/// characters continue it, and a single hyphen continues it only when a
/// word character follows.
pub open spec fn tag_end(s: Seq<char>, j: int) -> int
    decreases s.len() - j,
{
    if j < 0 || j >= s.len() {
        j
    } else if is_word_char(s[j]) {
        tag_end(s, j + 1)
    } else if s[j] == '-' && j + 1 < s.len() && is_word_char(s[j + 1]) {
        tag_end(s, j + 1)
    } else {
        j
    }
}

/// The token end never lies before its start, nor past the end of the
/// text.
pub proof fn lemma_tag_end_ge(s: Seq<char>, j: int)
    requires
        0 <= j,
    ensures
        tag_end(s, j) >= j,
        j < s.len() && is_word_char(s[j]) ==> tag_end(s, j) >= j + 1,
        j <= s.len() ==> tag_end(s, j) <= s.len(),
    decreases s.len() - j,
{
    if 0 <= j < s.len() && (is_word_char(s[j]) || (s[j] == '-' && j + 1 < s.len()
        && is_word_char(s[j + 1]))) {
        lemma_tag_end_ge(s, j + 1);
    }
}

/// Whether a hashtag token starts at position `i`: a `#` followed by a
/// word character.
pub open spec fn tag_starts_at(s: Seq<char>, i: int) -> bool {
    &&& 0 <= i
    &&& i + 1 < s.len()
    &&& s[i] == '#'
    &&& is_word_char(s[i + 1])
}

/// The hashtag texts found scanning `s` from position `i`: for each
/// token, the part after the `#`.
pub open spec fn tags_from(s: Seq<char>, i: int) -> Seq<Seq<char>>
    decreases s.len() - i,
    when i >= 0
    via tags_from_decreases
{
    if i >= s.len() {
        Seq::empty()
    } else if tag_starts_at(s, i) {
        let e = tag_end(s, i + 1);
        seq![s.subrange(i + 1, e)] + tags_from(s, e)
    } else {
        tags_from(s, i + 1)
    }
}

#[via_fn]
proof fn tags_from_decreases(s: Seq<char>, i: int) {
    if 0 <= i && i < s.len() && tag_starts_at(s, i) {
        lemma_tag_end_ge(s, i + 1);
        assert(i < tag_end(s, i + 1) <= s.len());
    }
}

/// The residual of `s` scanning from position `i`: the characters that
/// belong to no hashtag token.
pub open spec fn residual_from(s: Seq<char>, i: int) -> Seq<char>
    decreases s.len() - i,
    when i >= 0
    via residual_from_decreases
{
    if i >= s.len() {
        Seq::empty()
    } else if tag_starts_at(s, i) {
        residual_from(s, tag_end(s, i + 1))
    } else {
        seq![s[i]] + residual_from(s, i + 1)
    }
}

#[via_fn]
proof fn residual_from_decreases(s: Seq<char>, i: int) {
    if 0 <= i && i < s.len() && tag_starts_at(s, i) {
        lemma_tag_end_ge(s, i + 1);
        assert(i < tag_end(s, i + 1) <= s.len());
    }
}

/// The end of the hashtag token whose tail starts at `j`.
fn scan_tag_end(v: &Vec<char>, j0: usize) -> (j: usize)
    requires
        j0 <= v@.len(),
    ensures
        j as int == tag_end(v@, j0 as int),
        j0 <= j <= v@.len(),
    decreases v@.len() - j0,
{
    let n = v.len();
    let mut j = j0;
    while j < n && (word_char(v[j]) || (v[j] == '-' && j + 1 < n && word_char(v[j + 1])))
        invariant
            j0 <= j <= n,
            n == v@.len(),
            tag_end(v@, j0 as int) == tag_end(v@, j as int),
        decreases n - j,
    {
        j = j + 1;
    }
    j
}

/// Extracts the hashtag texts embedded in free text: each token of the
/// shape `#` followed by word characters, with further word groups joined
/// by single hyphens, yields the part after the `#`.
pub fn extract_hash_tags(text: &str) -> (tags: Vec<String>)
    ensures
        tags.deep_view() == tags_from(text@, 0),
{
    let v = chars_of(text);
    let n = v.len();
    let mut tags: Vec<String> = Vec::new();
    let mut i: usize = 0;
    while i < n
        invariant
            i <= n,
            n == v@.len(),
            v@ == text@,
            tags.deep_view() + tags_from(v@, i as int) =~= tags_from(v@, 0),
        decreases n - i,
    {
        if v[i] == '#' && i + 1 < n && word_char(v[i + 1]) {
            proof {
                lemma_tag_end_ge(v@, i as int + 1);
            }
            let e = scan_tag_end(&v, i + 1);
            let t = string_of(&v, i + 1, e);
            tags.push(t);
            proof {
                assert(tags.deep_view() =~= tags.deep_view().drop_last().push(t@));
                assert(tags.deep_view() + tags_from(v@, e as int) =~= tags_from(v@, 0));
            }
            i = e;
        } else {
            i = i + 1;
        }
    }
    proof {
        assert(tags.deep_view() + tags_from(v@, n as int) =~= tags.deep_view());
        assert(tags.deep_view() =~= tags_from(v@, 0));
    }
    tags
}

/// The case folding performed by the standard library's Unicode
/// lowercasing; a function of the characters alone.
pub uninterp spec fn lower_of(s: Seq<char>) -> Seq<char>;

/// The text folded to lower case.
///
/// Relies on `str::to_lowercase`: the result depends on the characters
/// alone, and an empty string stays empty.
#[verifier::external_body]
pub fn lowercase(s: &str) -> (r: String)
    ensures
        r@ == lower_of(s@),
        s@.len() == 0 ==> r@.len() == 0,
{
    s.to_lowercase()
}

/// Whether two string slices hold the same characters.
pub fn str_eq(a: &str, b: &str) -> (r: bool)
    ensures
        r == (a@ == b@),
{
    let n = a.unicode_len();
    if n != b.unicode_len() {
        return false;
    }
    let mut i: usize = 0;
    while i < n
        invariant
            i <= n,
            n == a@.len(),
            n == b@.len(),
            forall|m: int| 0 <= m < i as int ==> a@[m] == b@[m],
        decreases n - i,
    {
        if a.get_char(i) != b.get_char(i) {
            return false;
        }
        i = i + 1;
    }
    proof {
        assert(a@ =~= b@);
    }
    true
}

/// Whether a string with the given characters occurs in `v`.
pub fn contains_string(v: &Vec<String>, s: &String) -> (r: bool)
    ensures
        r == v.deep_view().contains(s@),
{
    let mut k: usize = 0;
    while k < v.len()
        invariant
            k <= v.len(),
            forall|m: int| 0 <= m < k as int ==> v.deep_view()[m] != s@,
        decreases v.len() - k,
    {
        if v[k].eq(s) {
            proof {
                assert(v.deep_view()[k as int] == s@);
            }
            return true;
        }
        k = k + 1;
    }
    false
}

/// Whether `needle` occurs in `hay` as a contiguous run.
pub open spec fn seq_contains_sub(hay: Seq<char>, needle: Seq<char>) -> bool {
    exists|k: int|
        0 <= k && k + needle.len() <= hay.len() && #[trigger] hay.subrange(k, k + needle.len())
            == needle
}

/// Substring search: whether `needle` occurs contiguously in `hay`.
pub fn contains_substring(hay: &str, needle: &str) -> (r: bool)
    ensures
        r == seq_contains_sub(hay@, needle@),
{
    let h = chars_of(hay);
    let nd = chars_of(needle);
    let n = h.len();
    let m = nd.len();
    if m > n {
        proof {
            assert(!seq_contains_sub(hay@, needle@));
        }
        return false;
    }
    if m == 0 {
        proof {
            assert(h@.subrange(0, 0 + nd@.len() as int) =~= nd@);
        }
        return true;
    }
    let mut k: usize = 0;
    while k <= n - m
        invariant
            1 <= m <= n,
            k <= n - m + 1,
            n == h@.len(),
            m == nd@.len(),
            h@ == hay@,
            nd@ == needle@,
            forall|k2: int|
                0 <= k2 < k as int ==> #[trigger] h@.subrange(k2, k2 + m as int) != nd@,
        decreases n - m - k + 1,
    {
        let mut j: usize = 0;
        let mut matches = true;
        while j < m
            invariant
                j <= m,
                k + m <= n,
                n == h@.len(),
                m == nd@.len(),
                matches ==> forall|j2: int|
                    0 <= j2 < j as int ==> h@[k as int + j2] == nd@[j2],
                !matches ==> h@.subrange(k as int, k as int + m as int) != nd@,
            decreases m - j,
        {
            if h[k + j] != nd[j] {
                proof {
                    assert(h@.subrange(k as int, k as int + m as int)[j as int] == h@[k as int
                        + j as int]);
                }
                matches = false;
                j = m;
            } else {
                j = j + 1;
            }
        }
        if matches {
            proof {
                assert(h@.subrange(k as int, k as int + m as int) =~= nd@);
            }
            return true;
        }
        k = k + 1;
    }
    proof {
        assert forall|k2: int| 0 <= k2 && k2 + nd@.len() <= h@.len() implies #[trigger] h@.subrange(
            k2,
            k2 + nd@.len(),
        ) != nd@ by {
            assert(k2 < k as int);
        }
    }
    false
}

/// A whitespace character of the residual-text cleanup.
pub open spec fn is_space_char(c: char) -> bool {
    c == ' ' || c == '\t' || c == '\n' || c == '\r'
}

fn space_char(c: char) -> (r: bool)
    ensures
        r == is_space_char(c),
{
    c == ' ' || c == '\t' || c == '\n' || c == '\r'
}

/// Every double space collapsed to a single one, left to right, without
/// overlap.
pub open spec fn collapse_spaces(s: Seq<char>) -> Seq<char>
    decreases s.len(),
{
    if s.len() >= 2 && s[0] == ' ' && s[1] == ' ' {
        seq![' '] + collapse_spaces(s.skip(2))
    } else if s.len() >= 1 {
        seq![s[0]] + collapse_spaces(s.skip(1))
    } else {
        Seq::empty()
    }
}

/// The sequence without its leading whitespace.
pub open spec fn trim_start(s: Seq<char>) -> Seq<char>
    decreases s.len(),
{
    if s.len() > 0 && is_space_char(s[0]) {
        trim_start(s.drop_first())
    } else {
        s
    }
}

/// The sequence without its trailing whitespace.
pub open spec fn trim_end(s: Seq<char>) -> Seq<char>
    decreases s.len(),
{
    if s.len() > 0 && is_space_char(s.last()) {
        trim_end(s.drop_last())
    } else {
        s
    }
}

/// What remains of free text once its hashtag tokens are stripped: the
/// residual characters, double spaces collapsed, surrounding whitespace
/// removed.
pub open spec fn remove_hash_tags_spec(s: Seq<char>) -> Seq<char> {
    trim_end(trim_start(collapse_spaces(residual_from(s, 0))))
}

/// The residual characters of free text: those that belong to no hashtag
/// token.
fn residual_chars(v: &Vec<char>) -> (res: Vec<char>)
    ensures
        res@ == residual_from(v@, 0),
{
    let n = v.len();
    let mut res: Vec<char> = Vec::new();
    let mut i: usize = 0;
    while i < n
        invariant
            i <= n,
            n == v@.len(),
            res@ + residual_from(v@, i as int) =~= residual_from(v@, 0),
        decreases n - i,
    {
        if v[i] == '#' && i + 1 < n && word_char(v[i + 1]) {
            proof {
                lemma_tag_end_ge(v@, i as int + 1);
            }
            let e = scan_tag_end(&v, i + 1);
            i = e;
        } else {
            res.push(v[i]);
            proof {
                assert(res@ + residual_from(v@, i as int + 1) =~= residual_from(v@, 0));
            }
            i = i + 1;
        }
    }
    proof {
        assert(res@ =~= residual_from(v@, 0));
    }
    res
}

/// Every double space collapsed to a single one.
fn collapse_spaces_exec(res: &Vec<char>) -> (col: Vec<char>)
    ensures
        col@ == collapse_spaces(res@),
{
    let m = res.len();
    let mut col: Vec<char> = Vec::new();
    proof {
        assert(res@.skip(0) =~= res@);
        assert(col@ + collapse_spaces(res@) =~= collapse_spaces(res@));
    }
    let mut j: usize = 0;
    while j < m
        invariant
            j <= m,
            m == res@.len(),
            col@ + collapse_spaces(res@.skip(j as int)) =~= collapse_spaces(res@),
        decreases m - j,
    {
        let ghost rs = res@.skip(j as int);
        if j + 1 < m && res[j] == ' ' && res[j + 1] == ' ' {
            proof {
                assert(rs[0] == ' ' && rs[1] == ' ');
                assert(rs.skip(2) =~= res@.skip(j as int + 2));
            }
            col.push(' ');
            proof {
                assert(col@ + collapse_spaces(res@.skip(j as int + 2)) =~= collapse_spaces(
                    res@,
                ));
            }
            j = j + 2;
        } else {
            proof {
                assert(rs[0] == res@[j as int]);
                assert(rs.skip(1) =~= res@.skip(j as int + 1));
            }
            col.push(res[j]);
            proof {
                assert(col@ + collapse_spaces(res@.skip(j as int + 1)) =~= collapse_spaces(
                    res@,
                ));
            }
            j = j + 1;
        }
    }
    proof {
        assert(res@.skip(m as int) =~= Seq::<char>::empty());
        assert(col@ + collapse_spaces(res@.skip(m as int)) =~= col@);
        assert(col@ =~= collapse_spaces(res@));
    }
    col
}

/// The characters with the surrounding whitespace removed, as a string.
fn trim_exec(col: &Vec<char>) -> (r: String)
    ensures
        r@ == trim_end(trim_start(col@)),
{
    let k = col.len();
    proof {
        assert(col@.skip(0) =~= col@);
    }
    let mut from: usize = 0;
    while from < k && space_char(col[from])
        invariant
            from <= k,
            k == col@.len(),
            trim_start(col@) == trim_start(col@.skip(from as int)),
        decreases k - from,
    {
        proof {
            assert(col@.skip(from as int).drop_first() =~= col@.skip(from as int + 1));
        }
        from = from + 1;
    }
    proof {
        assert(col@.skip(from as int).take(k as int - from as int) =~= col@.skip(from as int));
    }
    let mut to: usize = k;
    while to > from && space_char(col[to - 1])
        invariant
            from <= to <= k,
            k == col@.len(),
            trim_start(col@) == trim_start(col@.skip(from as int)),
            from < k ==> !is_space_char(col@[from as int]),
            trim_end(col@.skip(from as int)) == trim_end(
                col@.skip(from as int).take(to as int - from as int),
            ),
        decreases to,
    {
        proof {
            let sub = col@.skip(from as int).take(to as int - from as int);
            assert(sub.last() == col@[to as int - 1]);
            assert(sub.drop_last() =~= col@.skip(from as int).take(to as int - 1 - from as int));
        }
        to = to - 1;
    }
    proof {
        let st = col@.skip(from as int);
        if from < k {
            assert(!is_space_char(st[0]));
        }
        assert(trim_start(col@) == st);
        let sub = st.take(to as int - from as int);
        if to > from {
            assert(!is_space_char(sub.last()));
        }
        assert(trim_end(st) == sub);
        assert(sub =~= col@.subrange(from as int, to as int));
    }
    string_of(&col, from, to)
}

/// Strips the hashtag tokens out of free text, collapsing the double
/// spaces this leaves and trimming the ends.
pub fn remove_hash_tags(text: &str) -> (r: String)
    ensures
        r@ == remove_hash_tags_spec(text@),
{
    let v = chars_of(text);
    let res = residual_chars(&v);
    let col = collapse_spaces_exec(&res);
    trim_exec(&col)
}

} // verus!
