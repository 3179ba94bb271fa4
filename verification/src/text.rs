use vstd::prelude::*;

verus! {

/// Unicode `White_Space`, the property `char::is_whitespace` tests.
pub open spec fn is_ws(c: char) -> bool {
    let u = c as u32;
    ||| 0x09 <= u <= 0x0D
    ||| u == 0x20
    ||| u == 0x85
    ||| u == 0xA0
    ||| u == 0x1680
    ||| 0x2000 <= u <= 0x200A
    ||| u == 0x2028
    ||| u == 0x2029
    ||| u == 0x202F
    ||| u == 0x205F
    ||| u == 0x3000
}

/// Whether a character is Unicode white space.
pub fn is_whitespace(c: char) -> (r: bool)
    ensures
        r == is_ws(c),
{
    let u = c as u32;
    (0x09 <= u && u <= 0x0D) || u == 0x20 || u == 0x85 || u == 0xA0 || u == 0x1680 || (0x2000 <= u
        && u <= 0x200A) || u == 0x2028 || u == 0x2029 || u == 0x202F || u == 0x205F || u == 0x3000
}

/// The text without its leading white space.
pub open spec fn trim_start(s: Seq<char>) -> Seq<char>
    decreases s.len(),
{
    if s.len() > 0 && is_ws(s[0]) {
        trim_start(s.drop_first())
    } else {
        s
    }
}

/// The text without its trailing white space.
pub open spec fn trim_end(s: Seq<char>) -> Seq<char>
    decreases s.len(),
{
    if s.len() > 0 && is_ws(s.last()) {
        trim_end(s.drop_last())
    } else {
        s
    }
}

/// The text without leading and trailing white space.
pub open spec fn trim(s: Seq<char>) -> Seq<char> {
    trim_end(trim_start(s))
}

/// The pieces of `cur + s` between occurrences of `sep`, where `cur` holds
/// no `sep`.
pub open spec fn split_from(s: Seq<char>, sep: char, cur: Seq<char>) -> Seq<Seq<char>>
    decreases s.len(),
{
    if s.len() == 0 {
        seq![cur]
    } else if s[0] == sep {
        seq![cur] + split_from(s.drop_first(), sep, seq![])
    } else {
        split_from(s.drop_first(), sep, cur.push(s[0]))
    }
}

/// The pieces of `s` between occurrences of `sep` (always at least one).
pub open spec fn split(s: Seq<char>, sep: char) -> Seq<Seq<char>> {
    split_from(s, sep, seq![])
}

/// The maximal runs of non-white-space characters of `cur + s`, where `cur`
/// is a (possibly empty) run already begun.
pub open spec fn words_from(s: Seq<char>, cur: Seq<char>) -> Seq<Seq<char>>
    decreases s.len(),
{
    if s.len() == 0 {
        if cur.len() == 0 {
            seq![]
        } else {
            seq![cur]
        }
    } else if is_ws(s[0]) {
        (if cur.len() == 0 {
            seq![]
        } else {
            seq![cur]
        }) + words_from(s.drop_first(), seq![])
    } else {
        words_from(s.drop_first(), cur.push(s[0]))
    }
}

/// The white-space separated words of `s`.
pub open spec fn words(s: Seq<char>) -> Seq<Seq<char>> {
    words_from(s, seq![])
}

/// The text with all trailing occurrences of `c` removed.
pub open spec fn strip_trailing(s: Seq<char>, c: char) -> Seq<char>
    decreases s.len(),
{
    if s.len() > 0 && s.last() == c {
        strip_trailing(s.drop_last(), c)
    } else {
        s
    }
}

/// ASCII upper-case letters mapped to lower case, all else kept.
pub open spec fn ascii_lower_char(c: char) -> char {
    if 'A' <= c <= 'Z' {
        ((c as u32) + 32) as char
    } else {
        c
    }
}

/// The text with its ASCII upper-case letters mapped to lower case.
pub open spec fn ascii_lower(s: Seq<char>) -> Seq<char> {
    s.map_values(|c: char| ascii_lower_char(c))
}

/// The views of a sequence of character vectors.
pub open spec fn views(v: Seq<Vec<char>>) -> Seq<Seq<char>> {
    v.map_values(|x: Vec<char>| x@)
}

/// The characters of a string slice.
pub fn chars_of(s: &str) -> (v: Vec<char>)
    ensures
        v@ == s@,
{
    let mut v: Vec<char> = Vec::new();
    for c in it: s.chars()
        invariant
            v@ == it.seq().take(it.index() as int),
    {
        v.push(c);
    }
    v
}

/// A copy of `s[lo..hi]`.
pub fn copy_range(s: &[char], lo: usize, hi: usize) -> (v: Vec<char>)
    requires
        lo <= hi <= s@.len(),
    ensures
        v@ == s@.subrange(lo as int, hi as int),
{
    let mut v: Vec<char> = Vec::new();
    let mut i = lo;
    while i < hi
        invariant
            lo <= i <= hi <= s@.len(),
            v@ == s@.subrange(lo as int, i as int),
        decreases hi - i,
    {
        v.push(s[i]);
        i += 1;
        assert(v@ =~= s@.subrange(lo as int, i as int));
    }
    v
}

proof fn lemma_trim_start_skip(s: Seq<char>, i: int)
    requires
        0 <= i <= s.len(),
        forall|j: int| 0 <= j < i ==> is_ws(#[trigger] s[j]),
    ensures
        trim_start(s) == trim_start(s.subrange(i, s.len() as int)),
    decreases i,
{
    if i > 0 {
        assert(s.drop_first().subrange(i - 1, s.drop_first().len() as int) =~= s.subrange(
            i,
            s.len() as int,
        ));
        lemma_trim_start_skip(s.drop_first(), i - 1);
    } else {
        assert(s.subrange(0, s.len() as int) =~= s);
    }
}

proof fn lemma_trim_end_cut(s: Seq<char>, j: int)
    requires
        0 <= j <= s.len(),
        forall|k: int| j <= k < s.len() ==> is_ws(#[trigger] s[k]),
    ensures
        trim_end(s) == trim_end(s.subrange(0, j)),
    decreases s.len() - j,
{
    if j < s.len() {
        assert(s.drop_last().subrange(0, j) =~= s.subrange(0, j));
        lemma_trim_end_cut(s.drop_last(), j);
    } else {
        assert(s.subrange(0, j) =~= s);
    }
}

/// The text without leading and trailing white space.
pub fn trim_chars(s: &[char]) -> (t: Vec<char>)
    ensures
        t@ == trim(s@),
{
    let n = s.len();
    let mut i: usize = 0;
    while i < n && is_whitespace(s[i])
        invariant
            i <= n == s@.len(),
            forall|j: int| 0 <= j < i ==> is_ws(#[trigger] s@[j]),
        decreases n - i,
    {
        i += 1;
    }
    let mut j: usize = n;
    while j > i && is_whitespace(s[j - 1])
        invariant
            i <= j <= n == s@.len(),
            forall|k: int| j <= k < n ==> is_ws(#[trigger] s@[k]),
        decreases j - i,
    {
        j -= 1;
    }
    proof {
        lemma_trim_start_skip(s@, i as int);
        let u = s@.subrange(i as int, n as int);
        assert(trim_start(u) == u);
        assert forall|k: int| j - i <= k < u.len() implies is_ws(#[trigger] u[k]) by {
            assert(u[k] == s@[k + i]);
        }
        lemma_trim_end_cut(u, j - i);
        let w = u.subrange(0, j - i);
        assert(w =~= s@.subrange(i as int, j as int));
        assert(trim_end(w) == w);
    }
    copy_range(s, i, j)
}

/// The pieces of `s` between occurrences of `sep`.
pub fn split_chars(s: &[char], sep: char) -> (pieces: Vec<Vec<char>>)
    ensures
        views(pieces@) == split(s@, sep),
{
    let mut pieces: Vec<Vec<char>> = Vec::new();
    let mut cur: Vec<char> = Vec::new();
    let n = s.len();
    let mut i: usize = 0;
    assert(s@.subrange(0, n as int) =~= s@);
    assert(views(pieces@) + split(s@, sep) =~= split(s@, sep));
    assert(cur@ =~= seq![]);
    while i < n
        invariant
            i <= n == s@.len(),
            views(pieces@) + split_from(s@.subrange(i as int, n as int), sep, cur@) == split(
                s@,
                sep,
            ),
        decreases n - i,
    {
        let ghost rest = s@.subrange(i as int, n as int);
        assert(rest.drop_first() =~= s@.subrange(i + 1, n as int));
        let c = s[i];
        if c == sep {
            let ghost old_pieces = views(pieces@);
            let ghost old_cur = cur@;
            pieces.push(cur);
            cur = Vec::new();
            assert(views(pieces@) =~= old_pieces.push(old_cur));
            assert(old_pieces + (seq![old_cur] + split_from(rest.drop_first(), sep, seq![]))
                =~= old_pieces.push(old_cur) + split_from(rest.drop_first(), sep, seq![]));
            assert(cur@ =~= seq![]);
        } else {
            cur.push(c);
        }
        i += 1;
    }
    let ghost old_pieces = views(pieces@);
    let ghost last = cur@;
    assert(s@.subrange(n as int, n as int) =~= Seq::<char>::empty());
    pieces.push(cur);
    assert(views(pieces@) =~= old_pieces + seq![last]);
    pieces
}

/// The white-space separated words of `s`.
pub fn words_of(s: &[char]) -> (ws: Vec<Vec<char>>)
    ensures
        views(ws@) == words(s@),
{
    let mut ws: Vec<Vec<char>> = Vec::new();
    let mut cur: Vec<char> = Vec::new();
    let n = s.len();
    let mut i: usize = 0;
    assert(s@.subrange(0, n as int) =~= s@);
    assert(views(ws@) + words(s@) =~= words(s@));
    assert(cur@ =~= seq![]);
    while i < n
        invariant
            i <= n == s@.len(),
            views(ws@) + words_from(s@.subrange(i as int, n as int), cur@) == words(s@),
        decreases n - i,
    {
        let ghost rest = s@.subrange(i as int, n as int);
        assert(rest.drop_first() =~= s@.subrange(i + 1, n as int));
        let c = s[i];
        if is_whitespace(c) {
            if cur.len() > 0 {
                let ghost old_ws = views(ws@);
                let ghost old_cur = cur@;
                ws.push(cur);
                cur = Vec::new();
                assert(views(ws@) =~= old_ws.push(old_cur));
                assert(old_ws + (seq![old_cur] + words_from(rest.drop_first(), seq![]))
                    =~= old_ws.push(old_cur) + words_from(rest.drop_first(), seq![]));
                assert(cur@ =~= seq![]);
            } else {
                assert(seq![] + words_from(rest.drop_first(), seq![]) =~= words_from(
                    rest.drop_first(),
                    seq![],
                ));
                assert(cur@ =~= seq![]);
            }
        } else {
            cur.push(c);
        }
        i += 1;
    }
    assert(s@.subrange(n as int, n as int) =~= Seq::<char>::empty());
    if cur.len() > 0 {
        let ghost old_ws = views(ws@);
        let ghost last = cur@;
        ws.push(cur);
        assert(views(ws@) =~= old_ws + seq![last]);
    } else {
        assert(views(ws@) + seq![] =~= views(ws@));
    }
    ws
}

/// The text with all trailing occurrences of `c` removed.
pub fn strip_trailing_chars(s: &[char], c: char) -> (t: Vec<char>)
    ensures
        t@ == strip_trailing(s@, c),
{
    let mut j = s.len();
    assert(s@.subrange(0, j as int) =~= s@);
    while j > 0 && s[j - 1] == c
        invariant
            j <= s@.len(),
            strip_trailing(s@, c) == strip_trailing(s@.subrange(0, j as int), c),
        decreases j,
    {
        assert(s@.subrange(0, j as int).drop_last() =~= s@.subrange(0, j - 1));
        j -= 1;
    }
    copy_range(s, 0, j)
}

/// Whether two texts are equal.
pub fn chars_eq(a: &[char], b: &[char]) -> (r: bool)
    ensures
        r == (a@ == b@),
{
    if a.len() != b.len() {
        return false;
    }
    let mut i: usize = 0;
    while i < a.len()
        invariant
            i <= a@.len() == b@.len(),
            forall|j: int| 0 <= j < i ==> a@[j] == b@[j],
        decreases a@.len() - i,
    {
        if a[i] != b[i] {
            return false;
        }
        i += 1;
    }
    assert(a@ =~= b@);
    true
}

/// ASCII upper-case letters mapped to lower case, all else kept.
pub fn to_ascii_lower(c: char) -> (r: char)
    ensures
        r == ascii_lower_char(c),
{
    if 'A' <= c && c <= 'Z' {
        let b = (c as u32) as u8;
        (b + 32) as char
    } else {
        c
    }
}

/// Whether `s` equals the lower-case keyword `kw` with ASCII letters taken
/// regardless of case.
pub fn lower_eq(s: &[char], kw: &[char]) -> (r: bool)
    ensures
        r == (ascii_lower(s@) == kw@),
{
    if s.len() != kw.len() {
        return false;
    }
    let mut i: usize = 0;
    while i < s.len()
        invariant
            i <= s@.len() == kw@.len(),
            forall|j: int| 0 <= j < i ==> ascii_lower_char(s@[j]) == kw@[j],
        decreases s@.len() - i,
    {
        if to_ascii_lower(s[i]) != kw[i] {
            assert(ascii_lower(s@)[i as int] != kw@[i as int]);
            return false;
        }
        i += 1;
    }
    assert(ascii_lower(s@) =~= kw@);
    true
}

/// The pieces joined with `sep` between them.
pub open spec fn join(pieces: Seq<Seq<char>>, sep: char) -> Seq<char>
    decreases pieces.len(),
{
    if pieces.len() == 0 {
        seq![]
    } else if pieces.len() == 1 {
        pieces[0]
    } else {
        join(pieces.drop_last(), sep) + seq![sep] + pieces.last()
    }
}

proof fn lemma_join_prepend(c: Seq<char>, ps: Seq<Seq<char>>, sep: char)
    requires
        ps.len() >= 1,
    ensures
        join(seq![c] + ps, sep) == c + seq![sep] + join(ps, sep),
    decreases ps.len(),
{
    let q = seq![c] + ps;
    if ps.len() == 1 {
        assert(q.drop_last() =~= seq![c]);
        assert(q.last() == ps[0]);
        assert(join(seq![c], sep) == c);
        assert(join(ps, sep) == ps[0]);
        assert(join(q, sep) == join(q.drop_last(), sep) + seq![sep] + q.last());
    } else {
        assert(q.drop_last() =~= seq![c] + ps.drop_last());
        assert(q.last() == ps.last());
        lemma_join_prepend(c, ps.drop_last(), sep);
        assert(c + seq![sep] + join(ps.drop_last(), sep) + seq![sep] + ps.last() =~= c + seq![sep]
            + (join(ps.drop_last(), sep) + seq![sep] + ps.last()));
    }
}

proof fn lemma_split_from(s: Seq<char>, sep: char, cur: Seq<char>)
    requires
        forall|j: int| 0 <= j < cur.len() ==> cur[j] != sep,
    ensures
        split_from(s, sep, cur).len() >= 1,
        join(split_from(s, sep, cur), sep) == cur + s,
        forall|i: int, j: int|
            0 <= i < split_from(s, sep, cur).len() && 0 <= j < split_from(s, sep, cur)[i].len()
                ==> #[trigger] split_from(s, sep, cur)[i][j] != sep,
    decreases s.len(),
{
    if s.len() == 0 {
        assert(cur + s =~= cur);
    } else if s[0] == sep {
        let rest = split_from(s.drop_first(), sep, seq![]);
        lemma_split_from(s.drop_first(), sep, seq![]);
        lemma_join_prepend(cur, rest, sep);
        assert(seq![] + s.drop_first() =~= s.drop_first());
        assert(cur + seq![sep] + s.drop_first() =~= cur + s);
        assert forall|i: int, j: int|
            0 <= i < split_from(s, sep, cur).len() && 0 <= j < split_from(s, sep, cur)[i].len()
                implies #[trigger] split_from(s, sep, cur)[i][j] != sep by {
            if i > 0 {
                assert(split_from(s, sep, cur)[i] == rest[i - 1]);
            }
        }
    } else {
        let c2 = cur.push(s[0]);
        lemma_split_from(s.drop_first(), sep, c2);
        assert(c2 + s.drop_first() =~= cur + s);
    }
}

/// Splitting at `sep` cuts a text into pieces that hold no `sep` and that,
/// joined with `sep` between them, give the text back.
pub proof fn law_split_joins(s: Seq<char>, sep: char)
    ensures
        split(s, sep).len() >= 1,
        join(split(s, sep), sep) == s,
        forall|i: int, j: int|
            0 <= i < split(s, sep).len() && 0 <= j < split(s, sep)[i].len() ==> #[trigger] split(
                s,
                sep,
            )[i][j] != sep,
{
    lemma_split_from(s, sep, seq![]);
    assert(Seq::<char>::empty() + s =~= s);
}

proof fn lemma_trim_start_shape(s: Seq<char>) -> (k: int)
    ensures
        0 <= k <= s.len(),
        trim_start(s) == s.skip(k),
        forall|i: int| 0 <= i < k ==> is_ws(#[trigger] s[i]),
        k < s.len() ==> !is_ws(s[k]),
    decreases s.len(),
{
    if s.len() > 0 && is_ws(s[0]) {
        let k1 = lemma_trim_start_shape(s.drop_first());
        assert(s.drop_first().skip(k1) =~= s.skip(k1 + 1));
        assert forall|i: int| 0 <= i < k1 + 1 implies is_ws(#[trigger] s[i]) by {
            if i > 0 {
                assert(s[i] == s.drop_first()[i - 1]);
            }
        }
        if k1 + 1 < s.len() {
            assert(s[k1 + 1] == s.drop_first()[k1]);
        }
        k1 + 1
    } else {
        assert(s.skip(0) =~= s);
        0
    }
}

proof fn lemma_trim_end_shape(s: Seq<char>) -> (j: int)
    ensures
        0 <= j <= s.len(),
        trim_end(s) == s.take(j),
        forall|i: int| j <= i < s.len() ==> is_ws(#[trigger] s[i]),
        j > 0 ==> !is_ws(s[j - 1]),
    decreases s.len(),
{
    if s.len() > 0 && is_ws(s.last()) {
        let j1 = lemma_trim_end_shape(s.drop_last());
        assert(s.drop_last().take(j1) =~= s.take(j1));
        assert forall|i: int| j1 <= i < s.len() implies is_ws(#[trigger] s[i]) by {
            if i < s.len() - 1 {
                assert(s[i] == s.drop_last()[i]);
            }
        }
        if j1 > 0 {
            assert(s[j1 - 1] == s.drop_last()[j1 - 1]);
        }
        j1
    } else {
        assert(s.take(s.len() as int) =~= s);
        s.len() as int
    }
}

/// Trimming removes exactly the white space at both ends: the trimmed text
/// stands in the text with only white space before and after it, and it
/// neither starts nor ends with white space.
pub proof fn law_trim(s: Seq<char>)
    ensures
        exists|k: int|
            0 <= k && k + trim(s).len() <= s.len() && #[trigger] s.subrange(k, k + trim(s).len()) == trim(s)
                && (forall|i: int| 0 <= i < k ==> is_ws(#[trigger] s[i])) && (forall|i: int|
                k + trim(s).len() <= i < s.len() ==> is_ws(#[trigger] s[i])),
        trim(s).len() > 0 ==> !is_ws(trim(s)[0]) && !is_ws(trim(s).last()),
{
    let k = lemma_trim_start_shape(s);
    let u = s.skip(k);
    let j = lemma_trim_end_shape(u);
    let t = trim(s);
    assert(t == u.take(j));
    assert(t =~= s.subrange(k, k + j));
    assert forall|i: int| k + t.len() <= i < s.len() implies is_ws(#[trigger] s[i]) by {
        assert(s[i] == u[i - k]);
    }
    if t.len() > 0 {
        assert(t[0] == s[k]);
        assert(t.last() == u[j - 1]);
    }
    assert(s.subrange(k, k + t.len()) == t);
}

/// Every word of a text is non-empty and holds no white space.
pub proof fn law_words(s: Seq<char>)
    ensures
        forall|i: int| 0 <= i < words(s).len() ==> #[trigger] words(s)[i].len() > 0,
        forall|i: int, j: int|
            0 <= i < words(s).len() && 0 <= j < words(s)[i].len() ==> !is_ws(
                #[trigger] words(s)[i][j],
            ),
{
    lemma_words_from(s, seq![]);
}

proof fn lemma_words_from(s: Seq<char>, cur: Seq<char>)
    requires
        forall|j: int| 0 <= j < cur.len() ==> !is_ws(cur[j]),
    ensures
        forall|i: int| 0 <= i < words_from(s, cur).len() ==> #[trigger] words_from(s, cur)[i].len()
            > 0,
        forall|i: int, j: int|
            0 <= i < words_from(s, cur).len() && 0 <= j < words_from(s, cur)[i].len() ==> !is_ws(
                #[trigger] words_from(s, cur)[i][j],
            ),
    decreases s.len(),
{
    if s.len() > 0 {
        if is_ws(s[0]) {
            lemma_words_from(s.drop_first(), seq![]);
            let rest = words_from(s.drop_first(), seq![]);
            let head: Seq<Seq<char>> = if cur.len() == 0 {
                seq![]
            } else {
                seq![cur]
            };
            assert(words_from(s, cur) == head + rest);
            assert forall|i: int| 0 <= i < words_from(s, cur).len() implies #[trigger] words_from(
                s,
                cur,
            )[i].len() > 0 by {
                if i >= head.len() {
                    assert(words_from(s, cur)[i] == rest[i - head.len()]);
                } else {
                    assert(words_from(s, cur)[i] == cur);
                }
            }
            assert forall|i: int, j: int|
                0 <= i < words_from(s, cur).len() && 0 <= j < words_from(s, cur)[i].len()
                    implies !is_ws(#[trigger] words_from(s, cur)[i][j]) by {
                if i >= head.len() {
                    assert(words_from(s, cur)[i] == rest[i - head.len()]);
                } else {
                    assert(words_from(s, cur)[i] == cur);
                }
            }
        } else {
            let c2 = cur.push(s[0]);
            assert forall|j: int| 0 <= j < c2.len() implies !is_ws(c2[j]) by {
                if j < cur.len() {
                    assert(c2[j] == cur[j]);
                }
            }
            lemma_words_from(s.drop_first(), c2);
            assert(words_from(s, cur) == words_from(s.drop_first(), c2));
        }
    } else {
        if cur.len() > 0 {
            assert(words_from(s, cur) == seq![cur]);
            assert forall|i: int| 0 <= i < words_from(s, cur).len() implies #[trigger] words_from(
                s,
                cur,
            )[i].len() > 0 by {
                assert(words_from(s, cur)[i] == cur);
            }
            assert forall|i: int, j: int|
                0 <= i < words_from(s, cur).len() && 0 <= j < words_from(s, cur)[i].len()
                    implies !is_ws(#[trigger] words_from(s, cur)[i][j]) by {
                assert(words_from(s, cur)[i] == cur);
            }
        }
    }
}

} // verus!
