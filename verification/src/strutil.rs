//! Character-sequence specifications and verified executable helpers for the
//! line-oriented text manipulation the format needs: splitting into lines,
//! joining, prefix tests, and substring replacement.

use vstd::prelude::*;

verus! {

/// Does `s` contain the character `c`?
pub open spec fn has_char(s: Seq<char>, c: char) -> bool {
    exists|i: int| 0 <= i < s.len() && s[i] == c
}

/// Split `s` on every occurrence of `c`, `cur` being the part gathered so
/// far; empty parts are kept, so the result always has one part more than
/// `s` has separators.
pub open spec fn split_acc(s: Seq<char>, c: char, cur: Seq<char>) -> Seq<Seq<char>>
    decreases s.len(),
{
    if s.len() == 0 {
        seq![cur]
    } else if s[0] == c {
        seq![cur] + split_acc(s.skip(1), c, seq![])
    } else {
        split_acc(s.skip(1), c, cur.push(s[0]))
    }
}

/// Split `s` on `c`, keeping empty parts.
pub open spec fn split_on(s: Seq<char>, c: char) -> Seq<Seq<char>> {
    split_acc(s, c, seq![])
}

/// A terminated line loses one trailing carriage return.
pub open spec fn strip_cr(l: Seq<char>) -> Seq<char> {
    if l.len() > 0 && l[l.len() - 1] == '\r' {
        l.drop_last()
    } else {
        l
    }
}

/// The lines of `s` as `str::lines` yields them: split on `'\n'`, no empty
/// final line for a trailing newline, and a carriage return before each
/// newline is dropped.
pub open spec fn lines_spec(s: Seq<char>) -> Seq<Seq<char>> {
    if s.len() == 0 {
        seq![]
    } else if s[s.len() - 1] == '\n' {
        split_on(s.drop_last(), '\n').map_values(|l: Seq<char>| strip_cr(l))
    } else {
        let p = split_on(s, '\n');
        p.take(p.len() - 1).map_values(|l: Seq<char>| strip_cr(l)).push(p[p.len() - 1])
    }
}

/// The parts joined with `sep` between each neighbouring pair.
pub open spec fn join_with(ls: Seq<Seq<char>>, sep: Seq<char>) -> Seq<char>
    decreases ls.len(),
{
    if ls.len() == 0 {
        seq![]
    } else if ls.len() == 1 {
        ls[0]
    } else {
        ls[0] + sep + join_with(ls.skip(1), sep)
    }
}

/// Does `s` begin with `p`?
pub open spec fn starts_with_spec(s: Seq<char>, p: Seq<char>) -> bool {
    p.len() <= s.len() && s.take(p.len() as int) == p
}

/// Does `p` occur in `s` starting at index `i`?
pub open spec fn match_at(s: Seq<char>, p: Seq<char>, i: int) -> bool {
    0 <= i && i + p.len() <= s.len() && s.subrange(i, i + p.len()) == p
}

/// Does `p` occur anywhere in `s`?
pub open spec fn contains_sub(s: Seq<char>, p: Seq<char>) -> bool {
    exists|i: int| match_at(s, p, i)
}

/// Every occurrence of `p` replaced by `t`, scanning left to right without
/// overlap, as `str::replace` does.
pub open spec fn replace_spec(s: Seq<char>, p: Seq<char>, t: Seq<char>) -> Seq<char>
    decreases s.len(),
    when p.len() > 0
{
    if s.len() < p.len() {
        s
    } else if s.take(p.len() as int) == p {
        t + replace_spec(s.skip(p.len() as int), p, t)
    } else {
        seq![s[0]] + replace_spec(s.skip(1), p, t)
    }
}

/// Split `s` into maximal whitespace-free runs, `cur` being the run
/// gathered so far; no empty parts are kept.
pub open spec fn split_ws_acc(s: Seq<char>, cur: Seq<char>) -> Seq<Seq<char>>
    decreases s.len(),
{
    if s.len() == 0 {
        if cur.len() > 0 {
            seq![cur]
        } else {
            seq![]
        }
    } else if is_ws(s[0]) {
        (if cur.len() > 0 {
            seq![cur]
        } else {
            seq![]
        }) + split_ws_acc(s.skip(1), seq![])
    } else {
        split_ws_acc(s.skip(1), cur.push(s[0]))
    }
}

/// The whitespace-separated tokens of `s`, as `str::split_whitespace`
/// yields them.
pub open spec fn split_ws(s: Seq<char>) -> Seq<Seq<char>> {
    split_ws_acc(s, seq![])
}

/// The characters of `l` before the first `c`, or all of `l` when `c` is
/// absent.
pub open spec fn before_char(l: Seq<char>, c: char) -> Seq<char>
    decreases l.len(),
{
    if l.len() == 0 {
        l
    } else if l[0] == c {
        Seq::<char>::empty()
    } else {
        seq![l[0]] + before_char(l.skip(1), c)
    }
}

/// The characters of `l` after the first `c`, or nothing when `c` is
/// absent.
pub open spec fn after_char(l: Seq<char>, c: char) -> Seq<char>
    decreases l.len(),
{
    if l.len() == 0 {
        Seq::<char>::empty()
    } else if l[0] == c {
        l.skip(1)
    } else {
        after_char(l.skip(1), c)
    }
}

/// A line's leading word: the text before its first space, or the whole
/// line when it has none.
pub open spec fn word_of(l: Seq<char>) -> Seq<char> {
    if has_char(l, ' ') {
        before_char(l, ' ')
    } else {
        l
    }
}

/// What follows a line's leading word, empty when the line has no space.
pub open spec fn rest_of(l: Seq<char>) -> Seq<char> {
    after_char(l, ' ')
}

/// Splitting at an exhibited first space agrees with `before_char` and
/// `after_char`.
pub proof fn lemma_split_once_chars(s: Seq<char>, a: Seq<char>, b: Seq<char>)
    requires
        s == a + seq![' '] + b,
        !has_char(a, ' '),
    ensures
        before_char(s, ' ') == a,
        after_char(s, ' ') == b,
    decreases a.len(),
{
    if a.len() == 0 {
        assert(s[0] == ' ');
        assert(s.skip(1) =~= b);
        assert(before_char(s, ' ') =~= a);
    } else {
        assert(s[0] == a[0]);
        assert(s[0] != ' ') by {
            assert(a[0] == s[0]);
        }
        let s1 = s.skip(1);
        let a1 = a.skip(1);
        assert(s1 =~= a1 + seq![' '] + b);
        assert(!has_char(a1, ' ')) by {
            if has_char(a1, ' ') {
                let i = choose|i: int| 0 <= i < a1.len() && a1[i] == ' ';
                assert(a[i + 1] == ' ');
            }
        }
        lemma_split_once_chars(s1, a1, b);
        assert(before_char(s, ' ') =~= seq![s[0]] + a1);
        assert(seq![s[0]] + a1 =~= a);
    }
}

/// Joining a split puts the separators back: the parts of `cur + s` glue
/// together to the text itself.
pub proof fn lemma_join_split_acc(s: Seq<char>, c: char, cur: Seq<char>)
    ensures
        join_with(split_acc(s, c, cur), seq![c]) == cur + s,
    decreases s.len(),
{
    if s.len() == 0 {
        assert(cur + s =~= cur);
        assert(join_with(seq![cur], seq![c]) == cur);
    } else if s[0] == c {
        lemma_join_split_acc(s.skip(1), c, Seq::<char>::empty());
        lemma_split_acc_len(s.skip(1), c, Seq::<char>::empty());
        let rest = split_acc(s.skip(1), c, Seq::<char>::empty());
        let whole = seq![cur] + rest;
        assert(whole[0] == cur);
        assert(whole.skip(1) =~= rest);
        assert(whole.len() >= 2);
        assert(join_with(whole, seq![c]) == cur + seq![c] + join_with(rest, seq![c]));
        assert(Seq::<char>::empty() + s.skip(1) =~= s.skip(1));
        assert(cur + seq![c] + s.skip(1) =~= cur + s);
    } else {
        lemma_join_split_acc(s.skip(1), c, cur.push(s[0]));
        assert(cur.push(s[0]) + s.skip(1) =~= cur + s);
    }
}

/// A character absent from the text and the gathered part is absent from
/// every part of the split.
pub proof fn lemma_split_no_char(s: Seq<char>, c: char, cur: Seq<char>, x: char)
    requires
        !has_char(s, x),
        !has_char(cur, x),
    ensures
        forall|i: int|
            0 <= i < split_acc(s, c, cur).len() ==> !has_char(
                #[trigger] split_acc(s, c, cur)[i],
                x,
            ),
    decreases s.len(),
{
    if s.len() == 0 {
        assert(split_acc(s, c, cur) =~= seq![cur]);
    } else {
        assert(!has_char(s.skip(1), x)) by {
            if has_char(s.skip(1), x) {
                let i = choose|i: int| 0 <= i < s.skip(1).len() && s.skip(1)[i] == x;
                assert(s[i + 1] == x);
            }
        }
        if s[0] == c {
            lemma_split_no_char(s.skip(1), c, Seq::<char>::empty(), x);
            let rest = split_acc(s.skip(1), c, Seq::<char>::empty());
            assert forall|i: int| 0 <= i < split_acc(s, c, cur).len() implies !has_char(
                #[trigger] split_acc(s, c, cur)[i],
                x,
            ) by {
                if i > 0 {
                    assert(split_acc(s, c, cur)[i] == rest[i - 1]);
                } else {
                    assert(split_acc(s, c, cur)[0] == cur);
                }
            }
        } else {
            assert(s[0] != x);
            assert(!has_char(cur.push(s[0]), x)) by {
                if has_char(cur.push(s[0]), x) {
                    let i = choose|i: int|
                        0 <= i < cur.push(s[0]).len() && cur.push(s[0])[i] == x;
                    if i < cur.len() {
                        assert(cur[i] == x);
                    }
                }
            }
            lemma_split_no_char(s.skip(1), c, cur.push(s[0]), x);
            assert forall|i: int| 0 <= i < split_acc(s, c, cur).len() implies !has_char(
                #[trigger] split_acc(s, c, cur)[i],
                x,
            ) by {
                assert(split_acc(s, c, cur) == split_acc(s.skip(1), c, cur.push(s[0])));
                assert(!has_char(split_acc(s.skip(1), c, cur.push(s[0]))[i], x));
            }
        }
    }
}

/// Joining the lines of carriage-return-free text that does not end in a
/// newline gives the text back.
pub proof fn lemma_lines_join(s: Seq<char>)
    requires
        !has_char(s, '\r'),
        s.len() > 0 ==> s[s.len() - 1] != '\n',
    ensures
        join_with(lines_spec(s), "\n"@) == s,
{
    reveal_strlit("\n");
    assert("\n"@ =~= seq!['\n']);
    if s.len() == 0 {
        assert(join_with(lines_spec(s), "\n"@) == Seq::<char>::empty());
        assert(s =~= Seq::<char>::empty());
    } else {
        let p = split_on(s, '\n');
        lemma_split_no_char(s, '\n', Seq::<char>::empty(), '\r');
        lemma_split_acc_len(s, '\n', Seq::<char>::empty());
        assert(lines_spec(s) =~= p) by {
            assert forall|i: int| 0 <= i < p.len() - 1 implies strip_cr(p[i]) == p[i] by {
                assert(!has_char(p[i], '\r'));
                if p[i].len() > 0 && p[i][p[i].len() - 1] == '\r' {
                    assert(has_char(p[i], '\r'));
                }
            }
        }
        lemma_join_split_acc(s, '\n', Seq::<char>::empty());
        assert(Seq::<char>::empty() + s =~= s);
    }
}

/// A pattern absent from a text replaces to the text itself.
pub proof fn lemma_replace_absent(s: Seq<char>, p: Seq<char>, t: Seq<char>)
    requires
        p.len() > 0,
        !contains_sub(s, p),
    ensures
        replace_spec(s, p, t) == s,
    decreases s.len(),
{
    if s.len() < p.len() {
    } else if s.take(p.len() as int) == p {
        assert(s.subrange(0, p.len() as int) =~= s.take(p.len() as int));
        assert(match_at(s, p, 0));
    } else {
        assert(!contains_sub(s.skip(1), p)) by {
            if contains_sub(s.skip(1), p) {
                let i = choose|i: int| match_at(s.skip(1), p, i);
                assert(s.subrange(i + 1, i + 1 + p.len()) =~= s.skip(1).subrange(
                    i,
                    i + p.len(),
                ));
                assert(match_at(s, p, i + 1));
            }
        }
        lemma_replace_absent(s.skip(1), p, t);
        assert(seq![s[0]] + s.skip(1) =~= s);
    }
}

/// Replacing a pattern that stands once, at the front, drops exactly it.
pub proof fn lemma_replace_prefix(p: Seq<char>, x: Seq<char>, t: Seq<char>)
    requires
        p.len() > 0,
        !contains_sub(x, p),
    ensures
        replace_spec(p + x, p, t) == t + x,
{
    let s = p + x;
    assert(s.take(p.len() as int) =~= p);
    assert(s.skip(p.len() as int) =~= x);
    lemma_replace_absent(x, p, t);
}

/// The whitespace characters that blank-document detection recognises.
pub open spec fn is_ws(c: char) -> bool {
    c == ' ' || c == '\t' || c == '\n' || c == '\r'
}

/// Is `s` entirely whitespace?
pub open spec fn is_blank(s: Seq<char>) -> bool {
    forall|i: int| 0 <= i < s.len() ==> is_ws(s[i])
}

/// `s` without its leading run of `c`.
pub open spec fn trim_start_spec(s: Seq<char>, c: char) -> Seq<char>
    decreases s.len(),
{
    if s.len() > 0 && s[0] == c {
        trim_start_spec(s.skip(1), c)
    } else {
        s
    }
}

/// `s` without its trailing run of `c`.
pub open spec fn trim_end_spec(s: Seq<char>, c: char) -> Seq<char>
    decreases s.len(),
{
    if s.len() > 0 && s[s.len() - 1] == c {
        trim_end_spec(s.drop_last(), c)
    } else {
        s
    }
}

/// `s` without leading and trailing runs of `c`, as `str::trim_matches`
/// leaves it.
pub open spec fn trim_char(s: Seq<char>, c: char) -> Seq<char> {
    trim_end_spec(trim_start_spec(s, c), c)
}

/// The views of a sequence of strings.
pub open spec fn views(ss: Seq<String>) -> Seq<Seq<char>> {
    ss.map_values(|s: String| s@)
}

/// Are two strings equal?  Decides equality of the views.
pub fn str_eq(a: &str, b: &str) -> (r: bool)
    ensures
        r == (a@ == b@),
{
    let an = a.unicode_len();
    let bn = b.unicode_len();
    if an != bn {
        proof {
            assert(a@ != b@) by {
                if a@ == b@ {
                    assert(a@.len() == b@.len());
                }
            }
        }
        return false;
    }
    let mut i: usize = 0;
    while i < an
        invariant
            a@.len() == an,
            b@.len() == an,
            i <= an,
            forall|j: int| 0 <= j < i ==> a@[j] == b@[j],
        decreases an - i,
    {
        if a.get_char(i) != b.get_char(i) {
            return false;
        }
        i += 1;
    }
    proof {
        assert(a@ =~= b@);
    }
    true
}

/// Does `s` begin with `p`?
pub fn starts_with(s: &str, p: &str) -> (r: bool)
    ensures
        r == starts_with_spec(s@, p@),
{
    let sn = s.unicode_len();
    let pn = p.unicode_len();
    if pn > sn {
        return false;
    }
    let mut i: usize = 0;
    while i < pn
        invariant
            s@.len() == sn,
            p@.len() == pn,
            pn <= sn,
            i <= pn,
            forall|j: int| 0 <= j < i ==> s@[j] == p@[j],
        decreases pn - i,
    {
        if s.get_char(i) != p.get_char(i) {
            proof {
                assert(!starts_with_spec(s@, p@)) by {
                    if s@.take(pn as int) == p@ {
                        assert(s@.take(pn as int)[i as int] == p@[i as int]);
                    }
                }
            }
            return false;
        }
        i += 1;
    }
    proof {
        assert(s@.take(pn as int) =~= p@);
    }
    true
}

/// The characters of `s` from `from` up to (not including) `to`, as an owned
/// string.
pub fn substr(s: &str, from: usize, to: usize) -> (r: String)
    requires
        from <= to <= s@.len(),
    ensures
        r@ == s@.subrange(from as int, to as int),
{
    s.substring_char(from, to).to_owned()
}

/// Does `s` contain the character `c`?
pub fn contains_char(s: &str, c: char) -> (r: bool)
    ensures
        r == has_char(s@, c),
{
    let n = s.unicode_len();
    let mut i: usize = 0;
    while i < n
        invariant
            s@.len() == n,
            i <= n,
            forall|j: int| 0 <= j < i ==> s@[j] != c,
        decreases n - i,
    {
        if s.get_char(i) == c {
            return true;
        }
        i += 1;
    }
    false
}

/// Split `s` on every occurrence of `c`, keeping empty parts.
pub fn split_char(s: &str, c: char) -> (r: Vec<String>)
    ensures
        views(r@) == split_on(s@, c),
{
    let n = s.unicode_len();
    let mut out: Vec<String> = Vec::new();
    let mut start: usize = 0;
    let mut i: usize = 0;
    proof {
        assert(s@.skip(0) =~= s@);
        assert(s@.subrange(0, 0) =~= Seq::<char>::empty());
    }
    while i < n
        invariant
            s@.len() == n,
            start <= i <= n,
            split_on(s@, c) == views(out@) + split_acc(
                s@.skip(i as int),
                c,
                s@.subrange(start as int, i as int),
            ),
        decreases n - i,
    {
        let ghost rest = s@.skip(i as int);
        let ghost cur = s@.subrange(start as int, i as int);
        proof {
            assert(rest.len() == n - i);
            assert(rest[0] == s@[i as int]);
            assert(rest.skip(1) =~= s@.skip(i as int + 1));
        }
        if s.get_char(i) == c {
            let part = substr(s, start, i);
            out.push(part);
            proof {
                assert(split_acc(rest, c, cur) == seq![cur] + split_acc(
                    rest.skip(1),
                    c,
                    Seq::<char>::empty(),
                ));
                assert(views(out@) =~= views(out@.drop_last()) + seq![cur]);
                assert(views(out@.drop_last()) + seq![cur] + split_acc(
                    s@.skip(i as int + 1),
                    c,
                    Seq::<char>::empty(),
                ) =~= views(out@.drop_last()) + (seq![cur] + split_acc(
                    s@.skip(i as int + 1),
                    c,
                    Seq::<char>::empty(),
                )));
                assert(s@.subrange(i as int + 1, i as int + 1) =~= Seq::<char>::empty());
            }
            start = i + 1;
            i = i + 1;
        } else {
            proof {
                assert(split_acc(rest, c, cur) == split_acc(rest.skip(1), c, cur.push(rest[0])));
                assert(cur.push(rest[0]) =~= s@.subrange(start as int, i as int + 1));
            }
            i = i + 1;
        }
    }
    let last = substr(s, start, n);
    out.push(last);
    proof {
        assert(s@.skip(n as int) =~= Seq::<char>::empty());
        assert(split_acc(Seq::<char>::empty(), c, s@.subrange(start as int, n as int))
            == seq![s@.subrange(start as int, n as int)]);
        assert(views(out@) =~= views(out@.drop_last()) + seq![s@.subrange(
            start as int,
            n as int,
        )]);
    }
    out
}

/// The lines of `s`, as `str::lines` yields them.
pub fn split_lines(s: &str) -> (r: Vec<String>)
    ensures
        views(r@) == lines_spec(s@),
{
    let n = s.unicode_len();
    if n == 0 {
        let out: Vec<String> = Vec::new();
        proof {
            assert(views(out@) =~= lines_spec(s@));
        }
        return out;
    }
    let terminated = s.get_char(n - 1) == '\n';
    let parts = if terminated {
        let body = substr(s, 0, n - 1);
        proof {
            assert(s@.subrange(0, n as int - 1) =~= s@.drop_last());
        }
        split_char(body.as_str(), '\n')
    } else {
        split_char(s, '\n')
    };
    let m = parts.len();
    proof {
        assert(split_acc(s@, '\n', Seq::<char>::empty()).len() >= 1) by {
            lemma_split_acc_len(s@, '\n', Seq::<char>::empty());
        }
        if terminated {
            lemma_split_acc_len(s@.drop_last(), '\n', Seq::<char>::empty());
        }
    }
    let keep = if terminated {
        m
    } else {
        m - 1
    };
    let mut out: Vec<String> = Vec::new();
    let mut i: usize = 0;
    while i < keep
        invariant
            keep <= m,
            m == parts@.len(),
            i <= keep,
            out@.len() == i,
            forall|j: int| 0 <= j < i ==> out@[j]@ == strip_cr(views(parts@)[j]),
        decreases keep - i,
    {
        let p = &parts[i];
        let pn = p.as_str().unicode_len();
        let stripped = if pn > 0 && p.as_str().get_char(pn - 1) == '\r' {
            let t = substr(p.as_str(), 0, pn - 1);
            proof {
                assert(p@.subrange(0, pn as int - 1) =~= p@.drop_last());
            }
            t
        } else {
            let t = p.clone();
            t
        };
        proof {
            assert(stripped@ == strip_cr(p@));
        }
        out.push(stripped);
        i = i + 1;
    }
    if !terminated {
        let lastpart = parts[m - 1].clone();
        out.push(lastpart);
    }
    proof {
        if terminated {
            assert(views(out@) =~= views(parts@).map_values(|l: Seq<char>| strip_cr(l)));
            assert(views(out@) =~= lines_spec(s@));
        } else {
            assert(views(out@) =~= views(parts@).take(m as int - 1).map_values(
                |l: Seq<char>| strip_cr(l),
            ).push(views(parts@)[m as int - 1]));
            assert(views(out@) =~= lines_spec(s@));
        }
    }
    out
}

/// Every non-empty split has at least one part.
pub proof fn lemma_split_acc_len(s: Seq<char>, c: char, cur: Seq<char>)
    ensures
        split_acc(s, c, cur).len() >= 1,
    decreases s.len(),
{
    if s.len() == 0 {
    } else if s[0] == c {
    } else {
        lemma_split_acc_len(s.skip(1), c, cur.push(s[0]));
    }
}

/// The parts joined with `sep` between each neighbouring pair.
pub fn join(parts: &Vec<String>, sep: &str) -> (r: String)
    ensures
        r@ == join_with(views(parts@), sep@),
{
    let mut out = String::new();
    let n = parts.len();
    let ghost ls = views(parts@);
    let mut i: usize = 0;
    proof {
        assert(ls.skip(0) =~= ls);
    }
    while i < n
        invariant
            n == parts@.len(),
            ls == views(parts@),
            i <= n,
            join_with(ls, sep@) == out@ + join_with(ls.skip(i as int), sep@),
            i == n ==> out@ == join_with(ls, sep@),
        decreases n - i,
    {
        let ghost rest = ls.skip(i as int);
        proof {
            assert(rest[0] == ls[i as int]);
            assert(rest.len() == n - i);
            assert(rest.skip(1) =~= ls.skip(i as int + 1));
        }
        out.append(parts[i].as_str());
        if i + 1 < n {
            out.append(sep);
            proof {
                assert(join_with(rest, sep@) == rest[0] + sep@ + join_with(rest.skip(1), sep@));
                assert(out@ + join_with(ls.skip(i as int + 1), sep@) =~= join_with(ls, sep@));
            }
        } else {
            proof {
                assert(join_with(rest, sep@) == rest[0]);
                assert(out@ + join_with(ls.skip(i as int + 1), sep@) =~= join_with(ls, sep@));
            }
        }
        i = i + 1;
    }
    proof {
        if n == 0 {
            assert(out@ =~= join_with(ls, sep@));
        }
    }
    out
}

/// Every occurrence of `p` in `s` replaced by `t`, left to right.
pub fn replace_all(s: &str, p: &str, t: &str) -> (r: String)
    requires
        p@.len() > 0,
    ensures
        r@ == replace_spec(s@, p@, t@),
{
    let n = s.unicode_len();
    let pn = p.unicode_len();
    let mut out = String::new();
    let mut i: usize = 0;
    proof {
        assert(s@.skip(0) =~= s@);
    }
    while i < n
        invariant
            s@.len() == n,
            p@.len() == pn,
            pn > 0,
            i <= n,
            replace_spec(s@, p@, t@) == out@ + replace_spec(s@.skip(i as int), p@, t@),
        decreases n - i,
    {
        let ghost rest = s@.skip(i as int);
        proof {
            assert(rest.len() == n - i);
        }
        let matched = if pn <= n - i {
            let mut k: usize = 0;
            let mut eq = true;
            while k < pn
                invariant
                    s@.len() == n,
                    p@.len() == pn,
                    i + pn <= n,
                    k <= pn,
                    eq == (forall|j: int| 0 <= j < k ==> s@[i + j] == p@[j]),
                decreases pn - k,
            {
                if s.get_char(i + k) != p.get_char(k) {
                    eq = false;
                    k = pn;
                } else {
                    k = k + 1;
                }
            }
            proof {
                if eq {
                    assert(rest.take(pn as int) =~= p@);
                } else {
                    assert(rest.take(pn as int) != p@) by {
                        let j = choose|j: int| 0 <= j < pn && s@[i + j] != p@[j];
                        if rest.take(pn as int) == p@ {
                            assert(rest.take(pn as int)[j] == p@[j]);
                        }
                    }
                }
            }
            eq
        } else {
            proof {
                assert(rest.len() < pn);
            }
            false
        };
        if matched {
            out.append(t);
            proof {
                assert(replace_spec(rest, p@, t@) == t@ + replace_spec(
                    rest.skip(pn as int),
                    p@,
                    t@,
                ));
                assert(rest.skip(pn as int) =~= s@.skip(i as int + pn as int));
                assert(out@ + replace_spec(s@.skip(i as int + pn as int), p@, t@) =~= replace_spec(
                    s@,
                    p@,
                    t@,
                ));
            }
            i = i + pn;
        } else {
            let piece = s.substring_char(i, i + 1);
            out.append(piece);
            proof {
                if rest.len() < pn {
                    assert(replace_spec(rest, p@, t@) == rest);
                    assert(rest =~= seq![rest[0]] + rest.skip(1));
                    assert(rest.skip(1).len() < pn);
                    assert(replace_spec(rest.skip(1), p@, t@) == rest.skip(1));
                } else {
                    assert(replace_spec(rest, p@, t@) == seq![rest[0]] + replace_spec(
                        rest.skip(1),
                        p@,
                        t@,
                    ));
                }
                assert(piece@ =~= seq![rest[0]]);
                assert(rest.skip(1) =~= s@.skip(i as int + 1));
                assert(out@ + replace_spec(s@.skip(i as int + 1), p@, t@) =~= replace_spec(
                    s@,
                    p@,
                    t@,
                ));
            }
            i = i + 1;
        }
    }
    proof {
        assert(s@.skip(n as int) =~= Seq::<char>::empty());
        assert(replace_spec(Seq::<char>::empty(), p@, t@) == Seq::<char>::empty());
        assert(out@ + Seq::<char>::empty() =~= out@);
    }
    out
}

/// `s` without leading and trailing runs of `c`.
pub fn trim_matches(s: &str, c: char) -> (r: String)
    ensures
        r@ == trim_char(s@, c),
{
    let n = s.unicode_len();
    let mut lo: usize = 0;
    proof {
        assert(s@.skip(0) =~= s@);
    }
    while lo < n && s.get_char(lo) == c
        invariant
            s@.len() == n,
            lo <= n,
            trim_start_spec(s@, c) == trim_start_spec(s@.skip(lo as int), c),
        decreases n - lo,
    {
        proof {
            assert(s@.skip(lo as int).skip(1) =~= s@.skip(lo as int + 1));
        }
        lo = lo + 1;
    }
    let ghost st = trim_start_spec(s@, c);
    proof {
        if lo < n {
            assert(st == s@.skip(lo as int));
        } else {
            assert(s@.skip(n as int).len() == 0);
            assert(st == s@.skip(lo as int));
        }
    }
    let mut hi: usize = n;
    proof {
        assert(s@.subrange(lo as int, n as int) =~= s@.skip(lo as int));
    }
    while hi > lo && s.get_char(hi - 1) == c
        invariant
            s@.len() == n,
            lo <= hi <= n,
            st == s@.skip(lo as int),
            trim_end_spec(st, c) == trim_end_spec(s@.subrange(lo as int, hi as int), c),
        decreases hi,
    {
        proof {
            assert(s@.subrange(lo as int, hi as int).drop_last() =~= s@.subrange(
                lo as int,
                hi as int - 1,
            ));
            assert(s@.subrange(lo as int, hi as int).len() == hi - lo);
            if hi - lo > 0 {
                assert(s@.subrange(lo as int, hi as int)[hi - lo - 1] == s@[hi as int - 1]);
            }
        }
        hi = hi - 1;
    }
    proof {
        assert(s@.subrange(lo as int, n as int) =~= st);
        let part = s@.subrange(lo as int, hi as int);
        if hi > lo {
            assert(part[hi - lo - 1] == s@[hi as int - 1]);
            assert(trim_end_spec(part, c) == part);
        } else {
            assert(part.len() == 0);
            assert(trim_end_spec(part, c) == part);
        }
    }
    substr(s, lo, hi)
}

/// The whitespace-separated tokens of `s`.
pub fn split_whitespace_of(s: &str) -> (r: Vec<String>)
    ensures
        views(r@) == split_ws(s@),
{
    let n = s.unicode_len();
    let mut out: Vec<String> = Vec::new();
    let mut start: usize = 0;
    let mut i: usize = 0;
    proof {
        assert(s@.skip(0) =~= s@);
        assert(s@.subrange(0, 0) =~= Seq::<char>::empty());
    }
    while i < n
        invariant
            s@.len() == n,
            start <= i <= n,
            split_ws(s@) == views(out@) + split_ws_acc(
                s@.skip(i as int),
                s@.subrange(start as int, i as int),
            ),
        decreases n - i,
    {
        let ghost rest = s@.skip(i as int);
        let ghost cur = s@.subrange(start as int, i as int);
        proof {
            assert(rest[0] == s@[i as int]);
            assert(rest.skip(1) =~= s@.skip(i as int + 1));
        }
        let c = s.get_char(i);
        if c == ' ' || c == '\t' || c == '\n' || c == '\r' {
            if i > start {
                let part = substr(s, start, i);
                out.push(part);
                proof {
                    assert(views(out@) =~= views(out@.drop_last()) + seq![cur]);
                    assert(views(out@.drop_last()) + (seq![cur] + split_ws_acc(
                        s@.skip(i as int + 1),
                        Seq::<char>::empty(),
                    )) =~= views(out@) + split_ws_acc(
                        s@.skip(i as int + 1),
                        Seq::<char>::empty(),
                    ));
                }
            } else {
                proof {
                    assert(cur =~= Seq::<char>::empty());
                    assert(Seq::<Seq<char>>::empty() + split_ws_acc(
                        rest.skip(1),
                        Seq::<char>::empty(),
                    ) =~= split_ws_acc(rest.skip(1), Seq::<char>::empty()));
                }
            }
            proof {
                assert(s@.subrange(i as int + 1, i as int + 1) =~= Seq::<char>::empty());
            }
            start = i + 1;
            i = i + 1;
        } else {
            proof {
                assert(cur.push(rest[0]) =~= s@.subrange(start as int, i as int + 1));
            }
            i = i + 1;
        }
    }
    if start < n {
        let part = substr(s, start, n);
        out.push(part);
        proof {
            assert(s@.skip(n as int) =~= Seq::<char>::empty());
            assert(views(out@) =~= views(out@.drop_last()) + seq![s@.subrange(
                start as int,
                n as int,
            )]);
        }
    } else {
        proof {
            assert(s@.skip(n as int) =~= Seq::<char>::empty());
            assert(s@.subrange(start as int, n as int).len() == 0);
            assert(views(out@) + Seq::<Seq<char>>::empty() =~= views(out@));
        }
    }
    out
}

/// The text before and after the first space of `s`, when it has one.
pub fn split_once_sp(s: &str) -> (r: Option<(String, String)>)
    ensures
        match r {
            Some(ab) => has_char(s@, ' ') && s@ == ab.0@ + seq![' '] + ab.1@ && !has_char(
                ab.0@,
                ' ',
            ),
            None => !has_char(s@, ' '),
        },
{
    let n = s.unicode_len();
    let mut i: usize = 0;
    while i < n
        invariant
            s@.len() == n,
            i <= n,
            forall|j: int| 0 <= j < i ==> s@[j] != ' ',
        decreases n - i,
    {
        if s.get_char(i) == ' ' {
            let a = substr(s, 0, i);
            let b = substr(s, i + 1, n);
            proof {
                assert(s@ =~= a@ + seq![' '] + b@);
            }
            return Some((a, b));
        }
        i = i + 1;
    }
    None
}

/// Non-empty text has at least one line.
pub proof fn lemma_lines_nonempty(s: Seq<char>)
    requires
        s.len() > 0,
    ensures
        lines_spec(s).len() >= 1,
{
    if s[s.len() - 1] == '\n' {
        lemma_split_acc_len(s.drop_last(), '\n', Seq::<char>::empty());
    } else {
        lemma_split_acc_len(s, '\n', Seq::<char>::empty());
    }
}

/// `s` with ASCII whitespace trimmed from both ends, as `str::trim` leaves
/// it for such text.
pub open spec fn trim_ws_spec(s: Seq<char>) -> Seq<char>
    decreases s.len(),
{
    if s.len() > 0 && is_ws(s[0]) {
        trim_ws_spec(s.skip(1))
    } else if s.len() > 0 && is_ws(s[s.len() - 1]) {
        trim_ws_spec(s.drop_last())
    } else {
        s
    }
}

/// `s` with whitespace trimmed from both ends.
pub fn trim_of(s: &str) -> (r: String)
    ensures
        r@ == trim_ws_spec(s@),
{
    let n = s.unicode_len();
    let mut lo: usize = 0;
    let mut hi: usize = n;
    proof {
        assert(s@.subrange(0, n as int) =~= s@);
    }
    while lo < hi && is_ws_char(s.get_char(lo))
        invariant
            s@.len() == n,
            lo <= hi <= n,
            trim_ws_spec(s@) == trim_ws_spec(s@.subrange(lo as int, hi as int)),
            hi == n,
        decreases hi - lo,
    {
        proof {
            let part = s@.subrange(lo as int, hi as int);
            assert(part[0] == s@[lo as int]);
            assert(part.skip(1) =~= s@.subrange(lo as int + 1, hi as int));
        }
        lo = lo + 1;
    }
    while hi > lo && is_ws_char(s.get_char(hi - 1))
        invariant
            s@.len() == n,
            lo <= hi <= n,
            trim_ws_spec(s@) == trim_ws_spec(s@.subrange(lo as int, hi as int)),
            lo < hi ==> !is_ws(s@[lo as int]),
        decreases hi,
    {
        proof {
            let part = s@.subrange(lo as int, hi as int);
            assert(part[0] == s@[lo as int]);
            assert(part[part.len() - 1] == s@[hi as int - 1]);
            assert(part.drop_last() =~= s@.subrange(lo as int, hi as int - 1));
        }
        hi = hi - 1;
    }
    proof {
        let part = s@.subrange(lo as int, hi as int);
        if part.len() > 0 {
            assert(part[0] == s@[lo as int]);
            assert(part[part.len() - 1] == s@[hi as int - 1]);
        }
        assert(trim_ws_spec(part) == part);
    }
    substr(s, lo, hi)
}

/// Is `c` ASCII whitespace?
fn is_ws_char(c: char) -> (r: bool)
    ensures
        r == is_ws(c),
{
    c == ' ' || c == '\t' || c == '\n' || c == '\r'
}

/// An absent character leaves nothing after it.
pub proof fn lemma_after_absent(l: Seq<char>, c: char)
    requires
        !has_char(l, c),
    ensures
        after_char(l, c) == Seq::<char>::empty(),
    decreases l.len(),
{
    if l.len() > 0 {
        assert(l[0] != c);
        assert(!has_char(l.skip(1), c)) by {
            if has_char(l.skip(1), c) {
                let i = choose|i: int| 0 <= i < l.skip(1).len() && l.skip(1)[i] == c;
                assert(l[i + 1] == c);
            }
        }
        lemma_after_absent(l.skip(1), c);
    }
}

/// A line's leading word and what follows it, split at the first space.
pub fn word_and_rest(l: &str) -> (r: (String, String))
    ensures
        r.0@ == word_of(l@),
        r.1@ == rest_of(l@),
{
    match split_once_sp(l) {
        Some(ab) => {
            proof {
                lemma_split_once_chars(l@, ab.0@, ab.1@);
            }
            ab
        },
        None => {
            proof {
                lemma_after_absent(l@, ' ');
            }
            let w = l.to_owned();
            let rest = String::new();
            (w, rest)
        },
    }
}

/// The parts from index `from` on, as their own vector.
pub fn tail_of(parts: &Vec<String>, from: usize) -> (r: Vec<String>)
    requires
        from <= parts@.len(),
    ensures
        views(r@) == views(parts@).skip(from as int),
{
    let mut out: Vec<String> = Vec::new();
    let mut i: usize = from;
    let n = parts.len();
    while i < n
        invariant
            from <= i <= n,
            n == parts@.len(),
            out@.len() == i - from,
            forall|j: int| 0 <= j < out@.len() ==> out@[j]@ == parts@[from + j]@,
        decreases n - i,
    {
        out.push(parts[i].clone());
        i = i + 1;
    }
    proof {
        assert(views(out@) =~= views(parts@).skip(from as int));
    }
    out
}

/// Is `s` entirely whitespace (so that trimming it leaves nothing)?
pub fn all_whitespace(s: &str) -> (r: bool)
    ensures
        r == is_blank(s@),
{
    let n = s.unicode_len();
    let mut i: usize = 0;
    while i < n
        invariant
            s@.len() == n,
            i <= n,
            forall|j: int| 0 <= j < i ==> is_ws(s@[j]),
        decreases n - i,
    {
        let c = s.get_char(i);
        if !(c == ' ' || c == '\t' || c == '\n' || c == '\r') {
            return false;
        }
        i += 1;
    }
    true
}

} // verus!
