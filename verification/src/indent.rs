//! Indented text: each record of a flatted array pretty-printed as
//! `JSON.stringify(value, null, space)` does, then joined as
//! `'[' + records.join(',') + ']'`.
use vstd::prelude::*;
use crate::text::{push_char, append_str, chars_of, string_from, str_equal};
use crate::json::{Json, JsonTree, compact, quoted, write_compact, write_string_literal};
use crate::error::Error;
use serde_json::Error as JsonError;

verus! {

/// `level` times two spaces.
pub open spec fn spaces(level: nat) -> Seq<char>
    decreases level,
{
    if level == 0 {
        Seq::empty()
    } else {
        spaces((level - 1) as nat) + seq![' ', ' ']
    }
}

/// The pretty text of a JSON value at nesting `level`, as
/// `serde_json::to_string_pretty` writes it: every item or member on a line of
/// its own, indented by two spaces per level, `": "` after keys, and empty
/// arrays and objects as `[]` and `{}`.
pub open spec fn pretty(t: JsonTree, level: nat) -> Seq<char>
    decreases t, 0nat,
{
    match t {
        JsonTree::Array(items) => if items.len() == 0 {
            seq!['[', ']']
        } else {
            seq!['['] + pretty_items(items, level + 1, items.len()) + seq!['\n'] + spaces(level) + seq![']']
        },
        JsonTree::Object(es) => if es.len() == 0 {
            seq!['{', '}']
        } else {
            seq!['{'] + pretty_members(es, level + 1, es.len()) + seq!['\n'] + spaces(level) + seq!['}']
        },
        _ => compact(t),
    }
}

/// The separator before an item or member: a line break, after a comma
/// unless it is the first.
pub open spec fn line_sep(first: bool) -> Seq<char> {
    if first {
        seq!['\n']
    } else {
        seq![',', '\n']
    }
}

/// The first `n` items, each on its own line at `level`.
pub open spec fn pretty_items(items: Seq<JsonTree>, level: nat, n: nat) -> Seq<char>
    decreases items, n,
{
    if n == 0 || n > items.len() {
        Seq::empty()
    } else {
        pretty_items(items, level, (n - 1) as nat) + line_sep(n == 1) + spaces(level) + pretty(items[n - 1], level)
    }
}

/// One member at `level`: `"key": value`.
pub open spec fn pretty_member(e: (Seq<char>, JsonTree), level: nat) -> Seq<char>
    decreases e, 0nat,
{
    quoted(e.0) + seq![':', ' '] + pretty(e.1, level)
}

/// The first `n` members, each on its own line at `level`.
pub open spec fn pretty_members(es: Seq<(Seq<char>, JsonTree)>, level: nat, n: nat) -> Seq<char>
    decreases es, n,
{
    if n == 0 || n > es.len() {
        Seq::empty()
    } else {
        pretty_members(es, level, (n - 1) as nat) + line_sep(n == 1) + spaces(level) + pretty_member(es[n - 1], level)
    }
}

/// Appends the pretty text of `j` at nesting `level` to `out`; `pad` holds the
/// indentation of that level.
fn write_pretty(j: &Json, pad: &String, Ghost(level): Ghost<nat>, out: &mut String) -> (r: Result<(), JsonError>)
    requires
        pad@ == spaces(level),
    ensures
        r is Ok,
        final(out)@ == old(out)@ + pretty(j@, level),
    decreases j,
{
    match j {
        Json::Array(items) => {
            if items.len() == 0 {
                push_char(out, '[');
                push_char(out, ']');
                assert(out@ =~= old(out)@ + pretty(j@, level));
                return Ok(());
            }
            let ghost tv = j@;
            let ghost ts = tv->Array_0;
            let mut inner = pad.clone();
            push_char(&mut inner, ' ');
            push_char(&mut inner, ' ');
            assert(inner@ =~= spaces(level + 1));
            push_char(out, '[');
            let ghost start = out@;
            let mut i: usize = 0;
            while i < items.len()
                invariant
                    i <= items.len(),
                    *j == Json::Array(*items),
                    tv == j@,
                    ts == tv->Array_0,
                    ts.len() == items.len(),
                    forall|k: int| 0 <= k < items.len() ==> ts[k] == (#[trigger] items@[k])@,
                    inner@ == spaces(level + 1),
                    out@ == start + pretty_items(ts, level + 1, i as nat),
                decreases items.len() - i,
            {
                let ghost before = out@;
                if i > 0 {
                    push_char(out, ',');
                }
                push_char(out, '\n');
                append_str(out, inner.as_str());
                proof {
                    assert(decreases_to!(*j => (*j)->Array_0));
                    assert((*j)->Array_0 == *items);
                    assert(decreases_to!(*items => items@));
                    assert(decreases_to!(items@ => items@[i as int]));
                }
                match write_pretty(&items[i], &inner, Ghost(level + 1), out) {
                    Ok(()) => {},
                    Err(e) => {
                        return Err(e);
                    },
                }
                assert(out@ =~= before + line_sep(i == 0) + spaces(level + 1) + pretty(ts[i as int], level + 1));
                i += 1;
                assert(out@ =~= start + pretty_items(ts, level + 1, i as nat));
            }
            push_char(out, '\n');
            append_str(out, pad.as_str());
            push_char(out, ']');
            assert(out@ =~= old(out)@ + pretty(j@, level));
            Ok(())
        },
        Json::Object(entries) => {
            if entries.len() == 0 {
                push_char(out, '{');
                push_char(out, '}');
                assert(out@ =~= old(out)@ + pretty(j@, level));
                return Ok(());
            }
            let ghost tv = j@;
            let ghost ts = tv->Object_0;
            let mut inner = pad.clone();
            push_char(&mut inner, ' ');
            push_char(&mut inner, ' ');
            assert(inner@ =~= spaces(level + 1));
            push_char(out, '{');
            let ghost start = out@;
            let mut i: usize = 0;
            while i < entries.len()
                invariant
                    i <= entries.len(),
                    *j == Json::Object(*entries),
                    tv == j@,
                    ts == tv->Object_0,
                    ts.len() == entries.len(),
                    forall|k: int| 0 <= k < entries.len() ==> ts[k] == ((#[trigger] entries@[k]).0@, entries@[k].1@),
                    inner@ == spaces(level + 1),
                    out@ == start + pretty_members(ts, level + 1, i as nat),
                decreases entries.len() - i,
            {
                let ghost before = out@;
                if i > 0 {
                    push_char(out, ',');
                }
                push_char(out, '\n');
                append_str(out, inner.as_str());
                match write_string_literal(entries[i].0.as_str(), out) {
                    Ok(()) => {},
                    Err(e) => {
                        return Err(e);
                    },
                }
                push_char(out, ':');
                push_char(out, ' ');
                proof {
                    assert(decreases_to!(*j => (*j)->Object_0));
                    assert((*j)->Object_0 == *entries);
                    assert(decreases_to!(*entries => entries@));
                    assert(decreases_to!(entries@ => entries@[i as int]));
                    assert(decreases_to!(entries@[i as int] => entries@[i as int].1));
                }
                match write_pretty(&entries[i].1, &inner, Ghost(level + 1), out) {
                    Ok(()) => {},
                    Err(e) => {
                        return Err(e);
                    },
                }
                assert(ts[i as int] == (entries@[i as int].0@, entries@[i as int].1@));
                assert(out@ =~= before + line_sep(i == 0) + spaces(level + 1) + pretty_member(ts[i as int], level + 1));
                i += 1;
                assert(out@ =~= start + pretty_members(ts, level + 1, i as nat));
            }
            push_char(out, '\n');
            append_str(out, pad.as_str());
            push_char(out, '}');
            assert(out@ =~= old(out)@ + pretty(j@, level));
            Ok(())
        },
        _ => {
            let r = write_compact(j, out);
            r
        },
    }
}

// ---- lines and their indentation ----

/// A line without the carriage return that ends it, if any.
pub open spec fn strip_cr(l: Seq<char>) -> Seq<char> {
    if l.len() > 0 && l.last() == '\r' {
        l.drop_last()
    } else {
        l
    }
}

/// The finished lines of `s` and the unfinished last one: each `\n` ends a
/// line, and a line ended by `\n` loses one `\r` before it.
pub open spec fn scan_lines(s: Seq<char>) -> (Seq<Seq<char>>, Seq<char>)
    decreases s.len(),
{
    if s.len() == 0 {
        (Seq::empty(), Seq::empty())
    } else {
        let (ls, cur) = scan_lines(s.drop_last());
        if s.last() == '\n' {
            (ls.push(strip_cr(cur)), Seq::empty())
        } else {
            (ls, cur.push(s.last()))
        }
    }
}

/// The lines of `s`, as `str::lines` gives them: a last line without `\n`
/// counts only when it is not empty.
pub open spec fn text_lines(s: Seq<char>) -> Seq<Seq<char>> {
    let (ls, cur) = scan_lines(s);
    if cur.len() > 0 {
        ls.push(cur)
    } else {
        ls
    }
}

/// How many times `from` starts `line`, one after the other.
pub open spec fn leading(line: Seq<char>, from: Seq<char>) -> nat
    decreases line.len(),
{
    if from.len() > 0 && from.len() <= line.len() && line.take(from.len() as int) == from {
        1 + leading(line.skip(from.len() as int), from)
    } else {
        0
    }
}

/// `line` without the copies of `from` that start it.
pub open spec fn after_leading(line: Seq<char>, from: Seq<char>) -> Seq<char>
    decreases line.len(),
{
    if from.len() > 0 && from.len() <= line.len() && line.take(from.len() as int) == from {
        after_leading(line.skip(from.len() as int), from)
    } else {
        line
    }
}

/// `k` copies of `t`.
pub open spec fn repeat(t: Seq<char>, k: nat) -> Seq<char>
    decreases k,
{
    if k == 0 {
        Seq::empty()
    } else {
        repeat(t, (k - 1) as nat) + t
    }
}

/// A line with each leading copy of `from` replaced by `to`.
pub open spec fn remap_line(line: Seq<char>, from: Seq<char>, to: Seq<char>) -> Seq<char> {
    repeat(to, leading(line, from)) + after_leading(line, from)
}

/// The first `n` lines joined by `\n`.
pub open spec fn join_lines(ls: Seq<Seq<char>>, n: nat) -> Seq<char>
    decreases n,
{
    if n == 0 || n > ls.len() {
        Seq::empty()
    } else if n == 1 {
        ls[0]
    } else {
        join_lines(ls, (n - 1) as nat) + seq!['\n'] + ls[n - 1]
    }
}

/// `text` with the indentation of every line re-expressed: each leading
/// copy of `from` becomes `to`; lines are joined by `\n`.
pub open spec fn remapped(text: Seq<char>, from: Seq<char>, to: Seq<char>) -> Seq<char> {
    let ls = text_lines(text).map_values(|l: Seq<char>| remap_line(l, from, to));
    join_lines(ls, ls.len())
}

/// Writes `line` with its leading copies of `from` replaced by `to`.
fn remap_one(line: &Vec<char>, from: &Vec<char>, to: &str, out: &mut String)
    requires
        from@.len() > 0,
    ensures
        final(out)@ == old(out)@ + remap_line(line@, from@, to@),
{
    let n = line.len();
    let f = from.len();
    let mut pos: usize = 0;
    let mut k: usize = 0;
    let ghost l = line@;
    assert(l.skip(0) =~= l);
    loop
        invariant_except_break
            pos <= n,
            n == line.len(),
            f == from.len(),
            f > 0,
            k <= pos,
            l == line@,
            leading(l, from@) == k + leading(l.skip(pos as int), from@),
            after_leading(l, from@) == after_leading(l.skip(pos as int), from@),
            out@ == old(out)@ + repeat(to@, k as nat),
        ensures
            pos <= n,
            leading(l.skip(pos as int), from@) == 0,
            after_leading(l, from@) == l.skip(pos as int),
            leading(l, from@) == k,
            out@ == old(out)@ + repeat(to@, k as nat),
        decreases n - pos,
    {
        let ghost rest = l.skip(pos as int);
        if f > n - pos {
            assert(after_leading(rest, from@) == rest);
            break;
        }
        let mut q: usize = 0;
        let mut same = true;
        while q < f
            invariant
                q <= f,
                f == from.len(),
                pos + f <= n,
                n == line.len(),
                l == line@,
                same == (forall|r: int| 0 <= r < q ==> line@[pos + r] == from@[r]),
            decreases f - q,
        {
            if line[pos + q] != from[q] {
                same = false;
            }
            q += 1;
        }
        if !same {
            assert(rest.take(f as int) != from@) by {
                let r = choose|r: int| 0 <= r < f && line@[pos + r] != from@[r];
                assert(rest.take(f as int)[r] == line@[pos + r]);
            }
            assert(after_leading(rest, from@) == rest);
            break;
        }
        assert(rest.take(f as int) =~= from@);
        assert(rest.skip(f as int) =~= l.skip(pos + f));
        append_str(out, to);
        pos = pos + f;
        k = k + 1;
    }
    let mut i = pos;
    while i < n
        invariant
            pos <= i <= n,
            n == line.len(),
            l == line@,
            out@ == old(out)@ + repeat(to@, k as nat) + l.subrange(pos as int, i as int),
        decreases n - i,
    {
        push_char(out, line[i]);
        i += 1;
        assert(out@ =~= old(out)@ + repeat(to@, k as nat) + l.subrange(pos as int, i as int));
    }
    assert(l.subrange(pos as int, n as int) =~= l.skip(pos as int));
}

/// Re-indents `text`: on every line, each leading copy of `from` becomes
/// `to`; the lines are split as `str::lines` splits them and joined by `\n`.
pub fn remap_indent(text: &str, from: &str, to: &str) -> (r: String)
    requires
        from@.len() > 0,
    ensures
        r@ == remapped(text@, from@, to@),
{
    let cs = chars_of(text);
    let fs = chars_of(from);
    let mut out = String::new();
    let mut cur: Vec<char> = Vec::new();
    let mut lines: usize = 0;
    let ghost t = text@;
    let ghost lm = |l: Seq<char>| remap_line(l, from@, to@);
    let mut i: usize = 0;
    assert(cs@.take(0) =~= Seq::<char>::empty());
    while i < cs.len()
        invariant
            i <= cs.len(),
            cs@ == t,
            fs@ == from@,
            fs@.len() > 0,
            lm == (|l: Seq<char>| remap_line(l, from@, to@)),
            scan_lines(t.take(i as int)).1 == cur@,
            scan_lines(t.take(i as int)).0.len() == lines,
            lines <= i,
            out@ == join_lines(scan_lines(t.take(i as int)).0.map_values(lm), lines as nat),
        decreases cs.len() - i,
    {
        let c = cs[i];
        let ghost ls = scan_lines(t.take(i as int)).0;
        assert(t.take(i + 1).drop_last() =~= t.take(i as int));
        assert(t.take(i + 1).last() == c);
        if c == '\n' {
            let mut line = cur;
            if line.len() > 0 && line[line.len() - 1] == '\r' {
                line.pop();
            }
            assert(line@ == strip_cr(scan_lines(t.take(i as int)).1));
            let ghost before = out@;
            if lines > 0 {
                push_char(&mut out, '\n');
            }
            remap_one(&line, &fs, to, &mut out);
            let ghost nls = ls.push(line@);
            assert(nls.map_values(lm) =~= ls.map_values(lm).push(lm(line@)));
            assert(join_lines(nls.map_values(lm), (lines + 1) as nat) == (if lines == 0 {
                nls.map_values(lm)[0]
            } else {
                join_lines(nls.map_values(lm), lines as nat) + seq!['\n'] + nls.map_values(lm)[lines as int]
            }));
            assert(join_lines(nls.map_values(lm), lines as nat) == join_lines(ls.map_values(lm), lines as nat)) by {
                lemma_join_lines_prefix(ls.map_values(lm), nls.map_values(lm), lines as nat);
            }
            assert(out@ =~= join_lines(nls.map_values(lm), (lines + 1) as nat));
            lines = lines + 1;
            cur = Vec::new();
            assert(cur@ =~= Seq::<char>::empty());
        } else {
            cur.push(c);
        }
        i += 1;
    }
    assert(t.take(cs.len() as int) =~= t);
    let ghost ls = scan_lines(t).0;
    if cur.len() > 0 {
        if lines > 0 {
            push_char(&mut out, '\n');
        }
        remap_one(&cur, &fs, to, &mut out);
        let ghost nls = ls.push(cur@);
        assert(nls.map_values(lm) =~= ls.map_values(lm).push(lm(cur@)));
        assert(join_lines(nls.map_values(lm), lines as nat) == join_lines(ls.map_values(lm), lines as nat)) by {
            lemma_join_lines_prefix(ls.map_values(lm), nls.map_values(lm), lines as nat);
        }
        assert(out@ =~= join_lines(nls.map_values(lm), (lines + 1) as nat));
        assert(text_lines(t) == nls);
    } else {
        assert(text_lines(t) == ls);
    }
    out
}

/// Joining lines depends only on the lines joined.
proof fn lemma_join_lines_prefix(a: Seq<Seq<char>>, b: Seq<Seq<char>>, n: nat)
    requires
        n <= a.len(),
        n <= b.len(),
        forall|i: int| 0 <= i < n ==> a[i] == b[i],
    ensures
        join_lines(a, n) == join_lines(b, n),
    decreases n,
{
    if n > 1 {
        lemma_join_lines_prefix(a, b, (n - 1) as nat);
    }
}

// ---- lines read back ----

/// No character of `s` breaks a line.
pub open spec fn no_breaks(s: Seq<char>) -> bool {
    forall|i: int| 0 <= i < s.len() ==> #[trigger] s[i] != '\n' && s[i] != '\r'
}

/// Whether `s` starts with `t`.
pub open spec fn starts_with(s: Seq<char>, t: Seq<char>) -> bool {
    t.len() <= s.len() && s.take(t.len() as int) == t
}

/// Text without a line feed extends the unfinished line.
proof fn lemma_scan_append(s: Seq<char>, t: Seq<char>)
    requires
        forall|i: int| 0 <= i < t.len() ==> #[trigger] t[i] != '\n',
    ensures
        scan_lines(s + t) == (scan_lines(s).0, scan_lines(s).1 + t),
    decreases t.len(),
{
    if t.len() == 0 {
        assert(s + t =~= s);
        assert(scan_lines(s).1 + t =~= scan_lines(s).1);
    } else {
        let u = t.drop_last();
        lemma_scan_append(s, u);
        assert((s + t).drop_last() =~= s + u);
        assert((s + t).last() == t.last());
        assert((scan_lines(s).1 + u).push(t.last()) =~= scan_lines(s).1 + t);
    }
}

/// Joined lines scan back into the lines before the last, and the last.
proof fn lemma_scan_join(ls: Seq<Seq<char>>, n: nat)
    requires
        1 <= n <= ls.len(),
        forall|i: int| 0 <= i < ls.len() ==> no_breaks(#[trigger] ls[i]),
    ensures
        scan_lines(join_lines(ls, n)) == (ls.take(n - 1), ls[n - 1]),
    decreases n,
{
    let e = Seq::<char>::empty();
    assert(no_breaks(ls[n - 1]));
    if n == 1 {
        lemma_scan_append(e, ls[0]);
        assert(e + ls[0] =~= ls[0]);
        assert(e + ls[0] =~= ls[0]);
        assert(ls.take(0) =~= Seq::<Seq<char>>::empty());
    } else {
        lemma_scan_join(ls, (n - 1) as nat);
        let a = join_lines(ls, (n - 1) as nat);
        let b = a + seq!['\n'];
        assert(b.drop_last() =~= a);
        assert(no_breaks(ls[n - 2]));
        assert(strip_cr(ls[n - 2]) == ls[n - 2]) by {
            if ls[n - 2].len() > 0 {
                assert(ls[n - 2][ls[n - 2].len() - 1] != '\r');
            }
        }
        assert(ls.take(n - 2).push(ls[n - 2]) =~= ls.take(n - 1));
        lemma_scan_append(b, ls[n - 1]);
        assert(e + ls[n - 1] =~= ls[n - 1]);
        assert(join_lines(ls, n) =~= b + ls[n - 1]);
    }
}

/// The lines of joined lines are those lines, when none breaks and the last
/// is not empty.
proof fn lemma_lines_of_join(ls: Seq<Seq<char>>)
    requires
        forall|i: int| 0 <= i < ls.len() ==> no_breaks(#[trigger] ls[i]),
        ls.len() > 0 ==> ls.last().len() > 0,
    ensures
        text_lines(join_lines(ls, ls.len())) == ls,
{
    if ls.len() == 0 {
        assert(text_lines(Seq::<char>::empty()) =~= ls);
    } else {
        lemma_scan_join(ls, ls.len());
        assert(ls.take(ls.len() - 1).push(ls.last()) =~= ls);
    }
}

/// The lines of text without a carriage return break nowhere.
proof fn lemma_scan_no_breaks(s: Seq<char>)
    requires
        forall|i: int| 0 <= i < s.len() ==> #[trigger] s[i] != '\r',
    ensures
        forall|i: int| 0 <= i < scan_lines(s).0.len() ==> no_breaks(#[trigger] scan_lines(s).0[i]),
        no_breaks(scan_lines(s).1),
    decreases s.len(),
{
    if s.len() > 0 {
        let p = s.drop_last();
        assert forall|i: int| 0 <= i < p.len() implies #[trigger] p[i] != '\r' by {
            assert(p[i] == s[i]);
        }
        lemma_scan_no_breaks(p);
        let (ls, cur) = scan_lines(p);
        assert(s[s.len() - 1] != '\r');
        if s.last() == '\n' {
            assert(strip_cr(cur) == cur) by {
                if cur.len() > 0 {
                    assert(cur[cur.len() - 1] != '\r');
                }
            }
            assert(no_breaks(Seq::<char>::empty()));
        } else {
            assert(no_breaks(cur.push(s.last()))) by {
                assert forall|i: int| 0 <= i < cur.len() + 1 implies #[trigger] cur.push(s.last())[i] != '\n' && cur.push(s.last())[i] != '\r' by {
                    if i < cur.len() {
                        assert(cur[i] != '\n');
                    }
                }
            }
        }
    }
}

/// The lines of text without a carriage return break nowhere.
proof fn lemma_lines_no_breaks(s: Seq<char>)
    requires
        forall|i: int| 0 <= i < s.len() ==> #[trigger] s[i] != '\r',
    ensures
        forall|i: int| 0 <= i < text_lines(s).len() ==> no_breaks(#[trigger] text_lines(s)[i]),
{
    lemma_scan_no_breaks(s);
    let (ls, cur) = scan_lines(s);
    assert forall|i: int| 0 <= i < text_lines(s).len() implies no_breaks(#[trigger] text_lines(s)[i]) by {
        if i < ls.len() {
            assert(text_lines(s)[i] == ls[i]);
        }
    }
}

/// `k` copies of `t` are `t` followed by `k - 1` copies.
proof fn lemma_repeat_front(t: Seq<char>, k: nat)
    requires
        k > 0,
    ensures
        repeat(t, k) == t + repeat(t, (k - 1) as nat),
    decreases k,
{
    if k == 1 {
        assert(repeat(t, 0) + t =~= t);
        assert(t + repeat(t, 0) =~= t);
    } else {
        lemma_repeat_front(t, (k - 1) as nat);
        assert((t + repeat(t, (k - 2) as nat)) + t =~= t + (repeat(t, (k - 2) as nat) + t));
    }
}

/// Copies of text that breaks nowhere break nowhere.
proof fn lemma_repeat_no_breaks(t: Seq<char>, k: nat)
    requires
        no_breaks(t),
    ensures
        no_breaks(repeat(t, k)),
    decreases k,
{
    if k > 0 {
        lemma_repeat_no_breaks(t, (k - 1) as nat);
        let a = repeat(t, (k - 1) as nat);
        assert forall|i: int| 0 <= i < repeat(t, k).len() implies #[trigger] repeat(t, k)[i] != '\n' && repeat(t, k)[i] != '\r' by {
            if i < a.len() {
                assert(repeat(t, k)[i] == a[i]);
            } else {
                assert(repeat(t, k)[i] == t[i - a.len()]);
            }
        }
    }
}

/// A line is its leading copies of `from`, then the rest.
pub proof fn lemma_leading_split(l: Seq<char>, from: Seq<char>)
    requires
        from.len() > 0,
    ensures
        l == repeat(from, leading(l, from)) + after_leading(l, from),
    decreases l.len(),
{
    if from.len() <= l.len() && l.take(from.len() as int) == from {
        let r = l.skip(from.len() as int);
        lemma_leading_split(r, from);
        lemma_repeat_front(from, leading(l, from));
        assert(l =~= from + r);
        assert(from + (repeat(from, leading(r, from)) + after_leading(r, from)) =~= (from + repeat(
            from,
            leading(r, from),
        )) + after_leading(r, from));
    } else {
        assert(repeat(from, 0) + l =~= l);
    }
}

/// Copies of `t` before a rest that does not start with `t` lead `k` times.
proof fn lemma_leading_of_repeat(t: Seq<char>, k: nat, rest: Seq<char>)
    requires
        t.len() > 0,
        !starts_with(rest, t),
    ensures
        leading(repeat(t, k) + rest, t) == k,
        after_leading(repeat(t, k) + rest, t) == rest,
    decreases k,
{
    if k == 0 {
        assert(repeat(t, 0) + rest =~= rest);
    } else {
        lemma_repeat_front(t, k);
        let x = repeat(t, (k - 1) as nat) + rest;
        let line = repeat(t, k) + rest;
        assert(line =~= t + x);
        assert(line.take(t.len() as int) =~= t);
        assert(line.skip(t.len() as int) =~= x);
        lemma_leading_of_repeat(t, (k - 1) as nat, rest);
    }
}

/// A re-indented line breaks nowhere when neither the line nor `to` does.
proof fn lemma_remap_line_no_breaks(l: Seq<char>, from: Seq<char>, to: Seq<char>)
    requires
        from.len() > 0,
        no_breaks(l),
        no_breaks(to),
    ensures
        no_breaks(remap_line(l, from, to)),
{
    lemma_leading_split(l, from);
    let k = leading(l, from);
    let a = after_leading(l, from);
    let p = repeat(from, k);
    lemma_repeat_no_breaks(to, k);
    let q = repeat(to, k);
    assert forall|i: int| 0 <= i < a.len() implies #[trigger] a[i] != '\n' && a[i] != '\r' by {
        assert(a[i] == (p + a)[i + p.len()]);
    }
    assert forall|i: int| 0 <= i < (q + a).len() implies #[trigger] (q + a)[i] != '\n' && (q + a)[i] != '\r' by {
        if i < q.len() {
            assert((q + a)[i] == q[i]);
        } else {
            assert((q + a)[i] == a[i - q.len()]);
        }
    }
}

/// Re-indenting from `from` to `to` and back gives every line of `text` again,
/// joined by `\n`, when `from` and `to` are not empty, `to` and `text` hold
/// no carriage return (`to` no line feed either), no line's text after its
/// indentation starts with `to`, and the last of two or more lines is not
/// empty.
pub proof fn law_remap_roundtrip(text: Seq<char>, from: Seq<char>, to: Seq<char>)
    requires
        from.len() > 0,
        to.len() > 0,
        no_breaks(to),
        forall|i: int| 0 <= i < text.len() ==> #[trigger] text[i] != '\r',
        forall|i: int|
            0 <= i < text_lines(text).len() ==> !starts_with(after_leading(#[trigger] text_lines(text)[i], from), to),
        text_lines(text).len() > 1 ==> text_lines(text).last().len() > 0,
    ensures
        remapped(remapped(text, from, to), to, from) == join_lines(text_lines(text), text_lines(text).len()),
{
    let ls = text_lines(text);
    if ls.len() == 1 && ls[0].len() == 0 {
        assert(repeat(to, 0) + after_leading(ls[0], from) =~= Seq::<char>::empty());
        assert(remapped(text, from, to) =~= Seq::<char>::empty());
        assert(text_lines(Seq::<char>::empty()) =~= Seq::<Seq<char>>::empty());
        assert(remapped(Seq::<char>::empty(), to, from) =~= Seq::<char>::empty());
    } else {
        let ls2 = ls.map_values(|l: Seq<char>| remap_line(l, from, to));
        lemma_lines_no_breaks(text);
        assert forall|i: int| 0 <= i < ls2.len() implies no_breaks(#[trigger] ls2[i]) by {
            assert(no_breaks(ls[i]));
            lemma_remap_line_no_breaks(ls[i], from, to);
        }
        if ls.len() > 0 {
            let l = ls.last();
            lemma_leading_split(l, from);
            assert(ls2.last() == remap_line(l, from, to));
            if leading(l, from) > 0 {
                lemma_repeat_front(to, leading(l, from));
            } else {
                assert(repeat(from, 0) + after_leading(l, from) =~= after_leading(l, from));
            }
        }
        lemma_lines_of_join(ls2);
        assert(text_lines(remapped(text, from, to)) == ls2);
        let ls3 = ls2.map_values(|l: Seq<char>| remap_line(l, to, from));
        assert forall|i: int| 0 <= i < ls.len() implies #[trigger] ls3[i] == ls[i] by {
            let l = ls[i];
            let k = leading(l, from);
            let a = after_leading(l, from);
            lemma_leading_of_repeat(to, k, a);
            lemma_leading_split(l, from);
        }
        assert(ls3 =~= ls);
    }
}

// ---- layout ----

/// Where a reader of JSON text stands: between tokens, inside a string
/// literal, or inside one right after a backslash.
pub ghost enum Lex {
    Out,
    In,
    Esc,
}

/// JSON's white space between tokens.
pub open spec fn is_space(c: char) -> bool {
    c == ' ' || c == '\t' || c == '\n' || c == '\r'
}

/// Whether a reader at `st` keeps `c`: all but white space between tokens.
pub open spec fn lex_keep(st: Lex, c: char) -> bool {
    !(st is Out && is_space(c))
}

/// Where a reader at `st` stands after `c`.
pub open spec fn lex_next(st: Lex, c: char) -> Lex {
    match st {
        Lex::Out => if c == '"' {
            Lex::In
        } else {
            Lex::Out
        },
        Lex::In => if c == '"' {
            Lex::Out
        } else if c == '\\' {
            Lex::Esc
        } else {
            Lex::In
        },
        Lex::Esc => Lex::In,
    }
}

/// What a reader starting at `st` keeps of `s`, and where it stands after.
pub open spec fn lex(st: Lex, s: Seq<char>) -> (Seq<char>, Lex)
    decreases s.len(),
{
    if s.len() == 0 {
        (Seq::empty(), st)
    } else {
        let (o, t) = lex(st, s.drop_last());
        let c = s.last();
        (if lex_keep(t, c) {
            o.push(c)
        } else {
            o
        }, lex_next(t, c))
    }
}

/// JSON text without the white space between its tokens: two texts that
/// give the same layout-free text read as the same JSON value.
pub open spec fn layout_free(s: Seq<char>) -> Seq<char> {
    lex(Lex::Out, s).0
}

/// A number's text holds no white space and no quote.
pub open spec fn number_plain(n: Seq<char>) -> bool {
    forall|i: int| 0 <= i < n.len() ==> !is_space(#[trigger] n[i]) && n[i] != '"'
}

/// Every number in `t` is plain.
pub open spec fn plain_numbers(t: JsonTree) -> bool
    decreases t, 0nat,
{
    match t {
        JsonTree::Number(n) => number_plain(n),
        JsonTree::Array(items) => items_plain(items, items.len()),
        JsonTree::Object(es) => members_plain(es, es.len()),
        _ => true,
    }
}

/// Every number in the first `n` items is plain.
pub open spec fn items_plain(items: Seq<JsonTree>, n: nat) -> bool
    decreases items, n,
{
    if n == 0 || n > items.len() {
        true
    } else {
        items_plain(items, (n - 1) as nat) && plain_numbers(items[n - 1])
    }
}

/// Every number in the values of the first `n` members is plain.
pub open spec fn members_plain(es: Seq<(Seq<char>, JsonTree)>, n: nat) -> bool
    decreases es, n,
{
    if n == 0 || n > es.len() {
        true
    } else {
        members_plain(es, (n - 1) as nat) && plain_numbers(es[n - 1].1)
    }
}

/// Reading `a + b` is reading `a`, then `b` from where `a` left off.
proof fn lemma_lex_append(st: Lex, a: Seq<char>, b: Seq<char>)
    ensures
        lex(st, a + b) == (lex(st, a).0 + lex(lex(st, a).1, b).0, lex(lex(st, a).1, b).1),
    decreases b.len(),
{
    if b.len() == 0 {
        assert(a + b =~= a);
        assert(lex(st, a).0 + Seq::<char>::empty() =~= lex(st, a).0);
    } else {
        lemma_lex_append(st, a, b.drop_last());
        assert((a + b).drop_last() =~= a + b.drop_last());
        assert((a + b).last() == b.last());
        let m = lex(lex(st, a).1, b.drop_last());
        assert((lex(st, a).0 + m.0).push(b.last()) =~= lex(st, a).0 + m.0.push(b.last()));
    }
}

/// Between tokens, text without white space or quotes is kept whole.
proof fn lemma_lex_plain(s: Seq<char>)
    requires
        forall|i: int| 0 <= i < s.len() ==> !is_space(#[trigger] s[i]) && s[i] != '"',
    ensures
        lex(Lex::Out, s) == (s, Lex::Out),
    decreases s.len(),
{
    if s.len() > 0 {
        let p = s.drop_last();
        assert forall|i: int| 0 <= i < p.len() implies !is_space(#[trigger] p[i]) && p[i] != '"' by {
            assert(p[i] == s[i]);
        }
        lemma_lex_plain(p);
        assert(s[s.len() - 1] == s.last());
        assert(p.push(s.last()) =~= s);
    }
}

/// Between tokens, white space is all dropped.
proof fn lemma_lex_blank(s: Seq<char>)
    requires
        forall|i: int| 0 <= i < s.len() ==> is_space(#[trigger] s[i]),
    ensures
        lex(Lex::Out, s) == (Seq::<char>::empty(), Lex::Out),
    decreases s.len(),
{
    if s.len() > 0 {
        let p = s.drop_last();
        assert forall|i: int| 0 <= i < p.len() implies is_space(#[trigger] p[i]) by {
            assert(p[i] == s[i]);
        }
        lemma_lex_blank(p);
        assert(s[s.len() - 1] == s.last());
    }
}

/// Inside a string, text without quotes or backslashes is kept whole.
proof fn lemma_lex_inner(s: Seq<char>)
    requires
        forall|i: int| 0 <= i < s.len() ==> #[trigger] s[i] != '"' && s[i] != '\\',
    ensures
        lex(Lex::In, s) == (s, Lex::In),
    decreases s.len(),
{
    if s.len() > 0 {
        let p = s.drop_last();
        assert forall|i: int| 0 <= i < p.len() implies #[trigger] p[i] != '"' && p[i] != '\\' by {
            assert(p[i] == s[i]);
        }
        lemma_lex_inner(p);
        assert(s[s.len() - 1] == s.last());
        assert(p.push(s.last()) =~= s);
    }
}

/// Reading one character.
proof fn lemma_lex_one(st: Lex, c: char)
    ensures
        lex(st, seq![c]) == (if lex_keep(st, c) {
            seq![c]
        } else {
            Seq::<char>::empty()
        }, lex_next(st, c)),
{
    let s = seq![c];
    assert(s.drop_last() =~= Seq::<char>::empty());
    assert(s.len() == 1);
    assert(lex(st, s.drop_last()) == (Seq::<char>::empty(), st));
    assert(s.last() == c);
    assert(Seq::<char>::empty().push(c) =~= s);
    assert(lex(st, s) == (if lex_keep(st, c) {
        Seq::<char>::empty().push(c)
    } else {
        Seq::<char>::empty()
    }, lex_next(st, c)));
}

/// An escape of two characters leaves the reader inside the string.
proof fn lemma_lex_escape_pair(y: char)
    ensures
        lex(Lex::In, seq!['\\', y]) == (seq!['\\', y], Lex::In),
{
    let s = seq!['\\', y];
    assert(s.drop_last() =~= seq!['\\']);
    assert(seq!['\\'].drop_last() =~= Seq::<char>::empty());
    lemma_lex_one(Lex::In, '\\');
    assert(seq!['\\'].push(y) =~= s);
}

/// The characters of `hex_char` are neither quotes nor backslashes.
proof fn lemma_hex_plain(d: nat)
    ensures
        crate::json::hex_char(d) != '"',
        crate::json::hex_char(d) != '\\',
{
    if d < 10 {
        assert(crate::text::digit_char(d) != '"');
    }
}

/// An escaped character leaves the reader inside the string, keeping it all.
proof fn lemma_lex_escape_char(c: char)
    ensures
        lex(Lex::In, crate::json::escape_char(c)) == (crate::json::escape_char(c), Lex::In),
{
    let e = crate::json::escape_char(c);
    if c == '"' || c == '\\' || c == '\x08' || c == '\t' || c == '\n' || c == '\x0c' || c == '\r' {
        lemma_lex_escape_pair(e[1]);
        assert(e =~= seq!['\\', e[1]]);
    } else if (c as int) < 0x20 {
        let h1 = crate::json::hex_char((c as nat) / 16);
        let h2 = crate::json::hex_char((c as nat) % 16);
        lemma_hex_plain((c as nat) / 16);
        lemma_hex_plain((c as nat) % 16);
        let a = seq!['\\', 'u'];
        let b = seq!['0', '0', h1, h2];
        assert(e =~= a + b);
        lemma_lex_escape_pair('u');
        assert forall|i: int| 0 <= i < b.len() implies #[trigger] b[i] != '"' && b[i] != '\\' by {
            if i == 0 || i == 1 {
                assert(b[i] == '0');
            } else if i == 2 {
                assert(b[i] == h1);
            } else {
                assert(b[i] == h2);
            }
        }
        lemma_lex_inner(b);
        lemma_lex_append(Lex::In, a, b);
    } else {
        assert(e =~= seq![c]);
        lemma_lex_inner(seq![c]);
    }
}

/// Escaped text leaves the reader inside the string, keeping it all.
proof fn lemma_lex_escape_text(s: Seq<char>)
    ensures
        lex(Lex::In, crate::json::escape_text(s)) == (crate::json::escape_text(s), Lex::In),
    decreases s.len(),
{
    if s.len() > 0 {
        let p = s.drop_last();
        lemma_lex_escape_text(p);
        lemma_lex_escape_char(s.last());
        lemma_lex_append(Lex::In, crate::json::escape_text(p), crate::json::escape_char(s.last()));
    }
}

/// A string literal is kept whole and leaves the reader between tokens.
proof fn lemma_lex_quoted(s: Seq<char>)
    ensures
        lex(Lex::Out, quoted(s)) == (quoted(s), Lex::Out),
{
    let q = seq!['"'];
    let e = crate::json::escape_text(s);
    assert(q.drop_last() =~= Seq::<char>::empty());
    lemma_lex_one(Lex::Out, '"');
    lemma_lex_one(Lex::In, '"');
    lemma_lex_escape_text(s);
    lemma_lex_append(Lex::Out, q, e);
    lemma_lex_append(Lex::Out, q + e, q);
}

/// Indentation is all spaces.
proof fn lemma_spaces_blank(level: nat)
    ensures
        lex(Lex::Out, spaces(level)) == (Seq::<char>::empty(), Lex::Out),
{
    assert forall|i: int| 0 <= i < spaces(level).len() implies is_space(#[trigger] spaces(level)[i]) by {
        lemma_spaces_char(level, i);
    }
    lemma_lex_blank(spaces(level));
}

/// Every character of the indentation is a space.
proof fn lemma_spaces_char(level: nat, i: int)
    requires
        0 <= i < spaces(level).len(),
    ensures
        spaces(level)[i] == ' ',
    decreases level,
{
    if level > 0 {
        let p = spaces((level - 1) as nat);
        if i < p.len() {
            lemma_spaces_char((level - 1) as nat, i);
        }
    }
}

/// Reading two characters.
proof fn lemma_lex_two(st: Lex, a: char, b: char)
    ensures
        lex(st, seq![a, b]) == (lex(st, seq![a]).0 + lex(lex(st, seq![a]).1, seq![b]).0, lex(lex(st, seq![a]).1, seq![b]).1),
{
    assert(seq![a, b] =~= seq![a] + seq![b]);
    lemma_lex_append(st, seq![a], seq![b]);
}

/// Words of letters are kept whole between tokens.
proof fn lemma_lex_words()
    ensures
        lex(Lex::Out, crate::json::null_text()) == (crate::json::null_text(), Lex::Out),
        lex(Lex::Out, crate::json::bool_text(true)) == (crate::json::bool_text(true), Lex::Out),
        lex(Lex::Out, crate::json::bool_text(false)) == (crate::json::bool_text(false), Lex::Out),
{
    let n = crate::json::null_text();
    assert forall|i: int| 0 <= i < n.len() implies !is_space(#[trigger] n[i]) && n[i] != '"' by {
        assert(n[0] == 'n' && n[1] == 'u' && n[2] == 'l' && n[3] == 'l');
    }
    lemma_lex_plain(n);
    let t = crate::json::bool_text(true);
    assert forall|i: int| 0 <= i < t.len() implies !is_space(#[trigger] t[i]) && t[i] != '"' by {
        assert(t[0] == 't' && t[1] == 'r' && t[2] == 'u' && t[3] == 'e');
    }
    lemma_lex_plain(t);
    let f = crate::json::bool_text(false);
    assert forall|i: int| 0 <= i < f.len() implies !is_space(#[trigger] f[i]) && f[i] != '"' by {
        assert(f[0] == 'f' && f[1] == 'a' && f[2] == 'l' && f[3] == 's' && f[4] == 'e');
    }
    lemma_lex_plain(f);
}

/// The separator before an item or member reads as its comma, if any.
proof fn lemma_lex_line_sep(first: bool)
    ensures
        lex(Lex::Out, line_sep(first)) == (if first {
            Seq::<char>::empty()
        } else {
            seq![',']
        }, Lex::Out),
{
    lemma_lex_one(Lex::Out, '\n');
    lemma_lex_one(Lex::Out, ',');
    lemma_lex_two(Lex::Out, ',', '\n');
    assert(seq![','] + Seq::<char>::empty() =~= seq![',']);
}

/// The pretty text of a value reads as its compact text.
proof fn lemma_pretty_lex(t: JsonTree, level: nat)
    requires
        plain_numbers(t),
    ensures
        lex(Lex::Out, pretty(t, level)) == (compact(t), Lex::Out),
    decreases t, 0nat,
{
    let e = Seq::<char>::empty();
    match t {
        JsonTree::Null => lemma_lex_words(),
        JsonTree::Bool(_) => lemma_lex_words(),
        JsonTree::Number(n) => lemma_lex_plain(n),
        JsonTree::String(x) => lemma_lex_quoted(x),
        JsonTree::Array(items) => {
            let (o, c) = ('[', ']');
            lemma_lex_one(Lex::Out, o);
            lemma_lex_one(Lex::Out, c);
            if items.len() == 0 {
                lemma_lex_two(Lex::Out, o, c);
                assert(compact(t) =~= seq![o] + seq![c]);
            } else {
                let a = seq![o];
                let b = pretty_items(items, level + 1, items.len());
                lemma_pretty_items_lex(items, level + 1, items.len());
                lemma_lex_one(Lex::Out, '\n');
                lemma_spaces_blank(level);
                lemma_lex_append(Lex::Out, a, b);
                lemma_lex_append(Lex::Out, a + b, seq!['\n']);
                lemma_lex_append(Lex::Out, a + b + seq!['\n'], spaces(level));
                lemma_lex_append(Lex::Out, a + b + seq!['\n'] + spaces(level), seq![c]);
                assert(a + crate::json::compact_items(items, items.len()) + e + e + seq![c] =~= compact(t));
            }
        },
        JsonTree::Object(es) => {
            let (o, c) = ('{', '}');
            lemma_lex_one(Lex::Out, o);
            lemma_lex_one(Lex::Out, c);
            if es.len() == 0 {
                lemma_lex_two(Lex::Out, o, c);
                assert(compact(t) =~= seq![o] + seq![c]);
            } else {
                let a = seq![o];
                let b = pretty_members(es, level + 1, es.len());
                lemma_pretty_members_lex(es, level + 1, es.len());
                lemma_lex_one(Lex::Out, '\n');
                lemma_spaces_blank(level);
                lemma_lex_append(Lex::Out, a, b);
                lemma_lex_append(Lex::Out, a + b, seq!['\n']);
                lemma_lex_append(Lex::Out, a + b + seq!['\n'], spaces(level));
                lemma_lex_append(Lex::Out, a + b + seq!['\n'] + spaces(level), seq![c]);
                assert(a + crate::json::compact_members(es, es.len()) + e + e + seq![c] =~= compact(t));
            }
        },
    }
}

/// The pretty items read as the compact items.
proof fn lemma_pretty_items_lex(items: Seq<JsonTree>, level: nat, n: nat)
    requires
        items_plain(items, n),
    ensures
        lex(Lex::Out, pretty_items(items, level, n)) == (crate::json::compact_items(items, n), Lex::Out),
    decreases items, n,
{
    let e = Seq::<char>::empty();
    if n == 0 || n > items.len() {
        assert(lex(Lex::Out, e) == (e, Lex::Out));
    } else {
        lemma_pretty_items_lex(items, level, (n - 1) as nat);
        lemma_pretty_lex(items[n - 1], level);
        let p = pretty_items(items, level, (n - 1) as nat);
        let sep = line_sep(n == 1);
        lemma_lex_line_sep(n == 1);
        lemma_spaces_blank(level);
        lemma_lex_append(Lex::Out, p, sep);
        lemma_lex_append(Lex::Out, p + sep, spaces(level));
        lemma_lex_append(Lex::Out, p + sep + spaces(level), pretty(items[n - 1], level));
        if n == 1 {
            assert(crate::json::compact_items(items, (n - 1) as nat) == e);
            assert(e + e + e + compact(items[0]) =~= compact(items[0]));
        } else {
            assert(crate::json::compact_items(items, (n - 1) as nat) + seq![','] + e + compact(items[n - 1]) =~= crate::json::compact_items(items, (n - 1) as nat) + seq![','] + compact(items[n - 1]));
        }
    }
}

/// The pretty members read as the compact members.
proof fn lemma_pretty_members_lex(es: Seq<(Seq<char>, JsonTree)>, level: nat, n: nat)
    requires
        members_plain(es, n),
    ensures
        lex(Lex::Out, pretty_members(es, level, n)) == (crate::json::compact_members(es, n), Lex::Out),
    decreases es, n,
{
    let e = Seq::<char>::empty();
    if n == 0 || n > es.len() {
        assert(lex(Lex::Out, e) == (e, Lex::Out));
    } else {
        lemma_pretty_members_lex(es, level, (n - 1) as nat);
        let m = es[n - 1];
        lemma_pretty_lex(m.1, level);
        lemma_lex_quoted(m.0);
        lemma_lex_one(Lex::Out, ':');
        lemma_lex_one(Lex::Out, ' ');
        lemma_lex_two(Lex::Out, ':', ' ');
        assert(seq![':'] + e =~= seq![':']);
        lemma_lex_append(Lex::Out, quoted(m.0), seq![':', ' ']);
        lemma_lex_append(Lex::Out, quoted(m.0) + seq![':', ' '], pretty(m.1, level));
        assert(lex(Lex::Out, pretty_member(m, level)) == (crate::json::compact_member(m), Lex::Out));
        let p = pretty_members(es, level, (n - 1) as nat);
        let sep = line_sep(n == 1);
        lemma_lex_line_sep(n == 1);
        lemma_spaces_blank(level);
        lemma_lex_append(Lex::Out, p, sep);
        lemma_lex_append(Lex::Out, p + sep, spaces(level));
        lemma_lex_append(Lex::Out, p + sep + spaces(level), pretty_member(m, level));
        if n == 1 {
            assert(crate::json::compact_members(es, (n - 1) as nat) == e);
            assert(e + e + e + crate::json::compact_member(es[0]) =~= crate::json::compact_member(es[0]));
        } else {
            assert(crate::json::compact_members(es, (n - 1) as nat) + seq![','] + e + crate::json::compact_member(m)
                =~= crate::json::compact_members(es, (n - 1) as nat) + seq![','] + crate::json::compact_member(m));
        }
    }
}

/// The pretty text of a JSON value is its compact text laid out: with the
/// white space between tokens taken out it is the compact text, so the two
/// read as the same value (every separating comma and colon is there, every
/// string whole). Numbers are taken to hold no white space or quote, as JSON
/// numbers do.
pub proof fn law_pretty_is_compact_laid_out(t: JsonTree, level: nat)
    requires
        plain_numbers(t),
    ensures
        layout_free(pretty(t, level)) == compact(t),
{
    lemma_pretty_lex(t, level);
}

/// A non-empty array or object at nesting `level` closes on a line of its
/// own, indented to its level: the last line of its pretty text is `level`
/// indents and the closing bracket.
pub proof fn law_pretty_closes_at_level(t: JsonTree, level: nat)
    requires
        t matches JsonTree::Array(items) ==> items.len() > 0,
        t matches JsonTree::Object(es) ==> es.len() > 0,
        t is Array || t is Object,
    ensures
        text_lines(pretty(t, level)).last() == spaces(level) + seq![if t is Array { ']' } else { '}' }],
{
    let c = if t is Array { ']' } else { '}' };
    let x = match t {
        JsonTree::Array(items) => seq!['['] + pretty_items(items, level + 1, items.len()),
        JsonTree::Object(es) => seq!['{'] + pretty_members(es, level + 1, es.len()),
        _ => Seq::empty(),
    };
    let y = spaces(level) + seq![c];
    let xn = x + seq!['\n'];
    assert(pretty(t, level) =~= xn + y);
    assert(xn.drop_last() =~= x);
    assert(scan_lines(xn).1 == Seq::<char>::empty());
    assert forall|i: int| 0 <= i < y.len() implies #[trigger] y[i] != '\n' by {
        if i < spaces(level).len() {
            lemma_spaces_char(level, i);
        }
    }
    lemma_scan_append(xn, y);
    assert(Seq::<char>::empty() + y =~= y);
}

/// The indented flatted text, at two spaces per level, is the compact
/// flatted text laid out: with the white space between tokens taken out the
/// two are the same, so they read as the same flatted array.
pub proof fn law_indented_is_compact_laid_out(recs: Seq<JsonTree>)
    requires
        forall|i: int| 0 <= i < recs.len() ==> plain_numbers(#[trigger] recs[i]),
    ensures
        layout_free(indented_text(recs, two_spaces())) == compact(JsonTree::Array(recs)),
{
    let parts = recs.map_values(|t: JsonTree| pretty_indented(t, two_spaces()));
    assert forall|i: int| 0 <= i < recs.len() implies #[trigger] parts[i] == pretty(recs[i], 0) by {
        assert(gap(two_spaces()) == two_spaces());
    }
    lemma_comma_join_lex(recs, parts, recs.len());
    lemma_lex_one(Lex::Out, '[');
    lemma_lex_one(Lex::Out, ']');
    let a = seq!['['];
    let b = comma_join(parts, parts.len());
    lemma_lex_append(Lex::Out, a, b);
    lemma_lex_append(Lex::Out, a + b, seq![']']);
}

/// Records joined by commas read as the compact items.
proof fn lemma_comma_join_lex(recs: Seq<JsonTree>, parts: Seq<Seq<char>>, n: nat)
    requires
        parts.len() == recs.len(),
        n <= recs.len(),
        forall|i: int| 0 <= i < recs.len() ==> plain_numbers(#[trigger] recs[i]),
        forall|i: int| 0 <= i < recs.len() ==> #[trigger] parts[i] == pretty(recs[i], 0),
    ensures
        lex(Lex::Out, comma_join(parts, n)) == (crate::json::compact_items(recs, n), Lex::Out),
    decreases n,
{
    if n == 0 {
        assert(lex(Lex::Out, Seq::<char>::empty()) == (Seq::<char>::empty(), Lex::Out));
    } else if n == 1 {
        lemma_pretty_lex(recs[0], 0);
    } else {
        lemma_comma_join_lex(recs, parts, (n - 1) as nat);
        lemma_pretty_lex(recs[n - 1], 0);
        lemma_lex_one(Lex::Out, ',');
        let p = comma_join(parts, (n - 1) as nat);
        lemma_lex_append(Lex::Out, p, seq![',']);
        lemma_lex_append(Lex::Out, p + seq![','], parts[n - 1]);
    }
}

/// After every line feed of `s` comes `p`.
pub open spec fn after_breaks(s: Seq<char>, p: Seq<char>) -> bool {
    forall|i: int|
        0 <= i < s.len() && #[trigger] s[i] == '\n' ==> i + 1 + p.len() <= s.len() && s.subrange(i + 1, i + 1 + p.len())
            == p
}

/// Text without line feeds.
pub open spec fn no_line_feed(s: Seq<char>) -> bool {
    forall|i: int| 0 <= i < s.len() ==> #[trigger] s[i] != '\n'
}

/// What holds after every line feed of two texts holds after those of both.
proof fn lemma_after_breaks_concat(a: Seq<char>, b: Seq<char>, p: Seq<char>)
    requires
        after_breaks(a, p),
        after_breaks(b, p),
    ensures
        after_breaks(a + b, p),
{
    let s = a + b;
    assert forall|i: int| 0 <= i < s.len() && #[trigger] s[i] == '\n' implies i + 1 + p.len() <= s.len() && s.subrange(
        i + 1,
        i + 1 + p.len(),
    ) == p by {
        if i < a.len() {
            assert(a[i] == '\n');
            assert(s.subrange(i + 1, i + 1 + p.len()) =~= a.subrange(i + 1, i + 1 + p.len()));
        } else {
            let j = i - a.len();
            assert(b[j] == '\n');
            assert(s.subrange(i + 1, i + 1 + p.len()) =~= b.subrange(j + 1, j + 1 + p.len()));
        }
    }
}

/// Text without line feeds meets any demand on what follows them.
proof fn lemma_after_breaks_none(s: Seq<char>, p: Seq<char>)
    requires
        no_line_feed(s),
    ensures
        after_breaks(s, p),
{
}

/// What follows every line feed may be cut to a prefix.
proof fn lemma_after_breaks_prefix(s: Seq<char>, q: Seq<char>, p: Seq<char>)
    requires
        after_breaks(s, q),
        p.len() <= q.len(),
        q.take(p.len() as int) == p,
    ensures
        after_breaks(s, p),
{
    assert forall|i: int| 0 <= i < s.len() && #[trigger] s[i] == '\n' implies i + 1 + p.len() <= s.len() && s.subrange(
        i + 1,
        i + 1 + p.len(),
    ) == p by {
        assert(s.subrange(i + 1, i + 1 + p.len()) =~= s.subrange(i + 1, i + 1 + q.len()).take(p.len() as int));
    }
}

/// One more level of indentation starts with the indentation of this level.
proof fn lemma_spaces_prefix(level: nat)
    ensures
        spaces(level + 1).take(spaces(level).len() as int) == spaces(level),
        spaces(level + 1).len() >= spaces(level).len(),
{
    assert(spaces(level + 1) == spaces(level) + seq![' ', ' ']);
    assert(spaces(level + 1).take(spaces(level).len() as int) =~= spaces(level));
}

/// Indentation has no line feed.
proof fn lemma_spaces_no_line_feed(level: nat)
    ensures
        no_line_feed(spaces(level)),
{
    assert forall|i: int| 0 <= i < spaces(level).len() implies #[trigger] spaces(level)[i] != '\n' by {
        lemma_spaces_char(level, i);
    }
}

/// A line feed followed by an indentation.
proof fn lemma_break_then_indent(first: bool, level: nat)
    ensures
        after_breaks(line_sep(first) + spaces(level), spaces(level)),
{
    let s = line_sep(first) + spaces(level);
    let k = line_sep(first).len() - 1;
    lemma_spaces_no_line_feed(level);
    assert forall|i: int| 0 <= i < s.len() && #[trigger] s[i] == '\n' implies i + 1 + spaces(level).len() <= s.len()
        && s.subrange(i + 1, i + 1 + spaces(level).len()) == spaces(level) by {
        if i < k {
            assert(s[i] == ',');
        } else if i > k {
            assert(s[i] == spaces(level)[i - k - 1]);
        }
        assert(s.subrange(k + 1, k + 1 + spaces(level).len()) =~= spaces(level));
    }
}

/// A string literal holds no line feed: a line feed in the string is escaped.
proof fn lemma_quoted_no_line_feed(x: Seq<char>)
    ensures
        no_line_feed(quoted(x)),
{
    lemma_escape_text_no_line_feed(x);
    let q = quoted(x);
    let e = crate::json::escape_text(x);
    assert forall|i: int| 0 <= i < q.len() implies #[trigger] q[i] != '\n' by {
        if 0 < i < q.len() - 1 {
            assert(q[i] == e[i - 1]);
        }
    }
}

/// Escaped text holds no line feed.
proof fn lemma_escape_text_no_line_feed(x: Seq<char>)
    ensures
        no_line_feed(crate::json::escape_text(x)),
    decreases x.len(),
{
    if x.len() > 0 {
        let p = x.drop_last();
        lemma_escape_text_no_line_feed(p);
        let a = crate::json::escape_text(p);
        let c = x.last();
        let b = crate::json::escape_char(c);
        assert(no_line_feed(b)) by {
            if (c as int) < 0x20 && c != '\x08' && c != '\t' && c != '\n' && c != '\x0c' && c != '\r' {
                let h1 = crate::json::hex_char((c as nat) / 16);
                let h2 = crate::json::hex_char((c as nat) % 16);
                assert(h1 != '\n') by {
                    if (c as nat) / 16 < 10 {
                        assert(crate::text::digit_char((c as nat) / 16) != '\n');
                    }
                }
                assert(h2 != '\n') by {
                    if (c as nat) % 16 < 10 {
                        assert(crate::text::digit_char((c as nat) % 16) != '\n');
                    }
                }
                assert(b =~= seq!['\\', 'u', '0', '0', h1, h2]);
            }
        }
        assert forall|i: int| 0 <= i < (a + b).len() implies #[trigger] (a + b)[i] != '\n' by {
            if i < a.len() {
                assert((a + b)[i] == a[i]);
            } else {
                assert((a + b)[i] == b[i - a.len()]);
            }
        }
    }
}

/// After every line feed of the pretty text of a value at `level` comes the
/// indentation of that level; a non-empty array or object is its opening,
/// its items or members with one more level after every line feed, and a
/// last line of the indentation of its level and its closing.
proof fn lemma_pretty_breaks(t: JsonTree, level: nat)
    requires
        plain_numbers(t),
    ensures
        after_breaks(pretty(t, level), spaces(level)),
        t is Array && t->Array_0.len() > 0 ==> after_breaks(
            seq!['['] + pretty_items(t->Array_0, level + 1, t->Array_0.len()),
            spaces(level + 1),
        ),
        t is Object && t->Object_0.len() > 0 ==> after_breaks(
            seq!['{'] + pretty_members(t->Object_0, level + 1, t->Object_0.len()),
            spaces(level + 1),
        ),
    decreases t, 0nat,
{
    match t {
        JsonTree::Null => {
            lemma_lex_words();
            let n = crate::json::null_text();
            assert(n[0] == 'n' && n[1] == 'u' && n[2] == 'l' && n[3] == 'l');
            assert(no_line_feed(n));
        },
        JsonTree::Bool(b) => {
            let w = crate::json::bool_text(b);
            if b {
                assert(w[0] == 't' && w[1] == 'r' && w[2] == 'u' && w[3] == 'e');
            } else {
                assert(w[0] == 'f' && w[1] == 'a' && w[2] == 'l' && w[3] == 's' && w[4] == 'e');
            }
            assert(no_line_feed(w));
        },
        JsonTree::Number(n) => {
            assert(no_line_feed(n)) by {
                assert forall|i: int| 0 <= i < n.len() implies #[trigger] n[i] != '\n' by {
                    assert(!is_space(n[i]));
                }
            }
        },
        JsonTree::String(x) => lemma_quoted_no_line_feed(x),
        JsonTree::Array(items) => {
            if items.len() > 0 {
                let body = seq!['['] + pretty_items(items, level + 1, items.len());
                lemma_pretty_items_breaks(items, level + 1, items.len());
                lemma_after_breaks_none(seq!['['], spaces(level + 1));
                lemma_after_breaks_concat(seq!['['], pretty_items(items, level + 1, items.len()), spaces(level + 1));
                lemma_closing_breaks(body, level, ']');
            }
        },
        JsonTree::Object(es) => {
            if es.len() > 0 {
                let body = seq!['{'] + pretty_members(es, level + 1, es.len());
                lemma_pretty_members_breaks(es, level + 1, es.len());
                lemma_after_breaks_none(seq!['{'], spaces(level + 1));
                lemma_after_breaks_concat(seq!['{'], pretty_members(es, level + 1, es.len()), spaces(level + 1));
                lemma_closing_breaks(body, level, '}');
            }
        },
    }
}

/// A body indented one level deeper, closed on a line of its own, is
/// indented at least at its level.
proof fn lemma_closing_breaks(body: Seq<char>, level: nat, c: char)
    requires
        after_breaks(body, spaces(level + 1)),
        c != '\n',
    ensures
        after_breaks(body + seq!['\n'] + spaces(level) + seq![c], spaces(level)),
{
    lemma_spaces_prefix(level);
    lemma_after_breaks_prefix(body, spaces(level + 1), spaces(level));
    let tail = seq!['\n'] + spaces(level) + seq![c];
    lemma_spaces_no_line_feed(level);
    assert(after_breaks(tail, spaces(level))) by {
        assert forall|i: int| 0 <= i < tail.len() && #[trigger] tail[i] == '\n' implies i + 1 + spaces(level).len()
            <= tail.len() && tail.subrange(i + 1, i + 1 + spaces(level).len()) == spaces(level) by {
            if i > 0 && i <= spaces(level).len() {
                assert(tail[i] == spaces(level)[i - 1]);
            }
            assert(tail.subrange(1, (1 + spaces(level).len()) as int) =~= spaces(level));
        }
    }
    lemma_after_breaks_concat(body, tail, spaces(level));
    assert(body + seq!['\n'] + spaces(level) + seq![c] =~= body + tail);
}

/// Items at `level` are indented at least at that level.
proof fn lemma_pretty_items_breaks(items: Seq<JsonTree>, level: nat, n: nat)
    requires
        items_plain(items, n),
    ensures
        after_breaks(pretty_items(items, level, n), spaces(level)),
    decreases items, n,
{
    if n > 0 && n <= items.len() {
        lemma_pretty_items_breaks(items, level, (n - 1) as nat);
        lemma_pretty_breaks(items[n - 1], level);
        lemma_break_then_indent(n == 1, level);
        let p = pretty_items(items, level, (n - 1) as nat);
        let si = line_sep(n == 1) + spaces(level);
        lemma_after_breaks_concat(p, si, spaces(level));
        lemma_after_breaks_concat(p + si, pretty(items[n - 1], level), spaces(level));
        assert(pretty_items(items, level, n) =~= p + si + pretty(items[n - 1], level));
    }
}

/// Members at `level` are indented at least at that level.
proof fn lemma_pretty_members_breaks(es: Seq<(Seq<char>, JsonTree)>, level: nat, n: nat)
    requires
        members_plain(es, n),
    ensures
        after_breaks(pretty_members(es, level, n), spaces(level)),
    decreases es, n,
{
    if n > 0 && n <= es.len() {
        lemma_pretty_members_breaks(es, level, (n - 1) as nat);
        let m = es[n - 1];
        lemma_pretty_breaks(m.1, level);
        lemma_quoted_no_line_feed(m.0);
        let kc = quoted(m.0) + seq![':', ' '];
        assert(no_line_feed(kc)) by {
            assert forall|i: int| 0 <= i < kc.len() implies #[trigger] kc[i] != '\n' by {
                if i < quoted(m.0).len() {
                    assert(kc[i] == quoted(m.0)[i]);
                }
            }
        }
        lemma_after_breaks_none(kc, spaces(level));
        lemma_after_breaks_concat(kc, pretty(m.1, level), spaces(level));
        lemma_break_then_indent(n == 1, level);
        let p = pretty_members(es, level, (n - 1) as nat);
        let si = line_sep(n == 1) + spaces(level);
        lemma_after_breaks_concat(p, si, spaces(level));
        lemma_after_breaks_concat(p + si, pretty_member(m, level), spaces(level));
        assert(pretty_members(es, level, n) =~= p + si + pretty_member(m, level));
    }
}

/// Every line of the pretty text of a value at nesting `level`, after its
/// first, is indented by at least `level` indents; a non-empty array or
/// object has its items or members on lines indented one level deeper and
/// closes on a last line of its own, indented at its level.
pub proof fn law_pretty_indents(t: JsonTree, level: nat)
    requires
        plain_numbers(t),
    ensures
        after_breaks(pretty(t, level), spaces(level)),
        t is Array && t->Array_0.len() > 0 ==> exists|body: Seq<char>|
            pretty(t, level) == body + seq!['\n'] + spaces(level) + seq![']'] && #[trigger] after_breaks(body, spaces(level + 1)),
        t is Object && t->Object_0.len() > 0 ==> exists|body: Seq<char>|
            pretty(t, level) == body + seq!['\n'] + spaces(level) + seq!['}'] && #[trigger] after_breaks(body, spaces(level + 1)),
{
    lemma_pretty_breaks(t, level);
    match t {
        JsonTree::Array(items) => {
            if items.len() > 0 {
                let body = seq!['['] + pretty_items(items, level + 1, items.len());
                assert(pretty(t, level) == body + seq!['\n'] + spaces(level) + seq![']']);
                assert(after_breaks(body, spaces(level + 1)));
            }
        },
        JsonTree::Object(es) => {
            if es.len() > 0 {
                let body = seq!['{'] + pretty_members(es, level + 1, es.len());
                assert(pretty(t, level) == body + seq!['\n'] + spaces(level) + seq!['}']);
                assert(after_breaks(body, spaces(level + 1)));
            }
        },
        _ => {},
    }
}

// ---- indented flatted text ----

/// Two spaces, the indentation `serde_json` writes.
pub open spec fn two_spaces() -> Seq<char> {
    seq![' ', ' ']
}

/// The gap of an indentation, as `JSON.stringify` takes it: at most its first
/// ten characters.
pub open spec fn gap(indent: Seq<char>) -> Seq<char> {
    if indent.len() > 10 {
        indent.take(10)
    } else {
        indent
    }
}

/// The text of one record indented by `indent` per level: compact text when
/// the gap is empty, else one member or item per line, indented by the gap.
pub open spec fn pretty_indented(t: JsonTree, indent: Seq<char>) -> Seq<char> {
    let gp = gap(indent);
    if gp.len() == 0 {
        compact(t)
    } else if gp == two_spaces() {
        pretty(t, 0)
    } else {
        remapped(pretty(t, 0), two_spaces(), gp)
    }
}

/// The first `n` texts separated by `,`.
pub open spec fn comma_join(parts: Seq<Seq<char>>, n: nat) -> Seq<char>
    decreases n,
{
    if n == 0 || n > parts.len() {
        Seq::empty()
    } else if n == 1 {
        parts[0]
    } else {
        comma_join(parts, (n - 1) as nat) + seq![','] + parts[n - 1]
    }
}

/// The indented text of a flatted array: `'[' + records.join(',') + ']'`
/// with each record indented by `indent` per level.
pub open spec fn indented_text(recs: Seq<JsonTree>, indent: Seq<char>) -> Seq<char> {
    let parts = recs.map_values(|t: JsonTree| pretty_indented(t, indent));
    seq!['['] + comma_join(parts, parts.len()) + seq![']']
}

/// The text of one record indented by `indent` per level (at most its first
/// ten characters); compact when `indent` is empty.
pub fn pretty_with_indent(value: &Json, indent: &str) -> (r: Result<String, Error>)
    ensures
        r is Ok,
        r->Ok_0@ == pretty_indented(value@, indent@),
{
    let cs = chars_of(indent);
    if cs.len() == 0 {
        let mut text = String::new();
        match write_compact(value, &mut text) {
            Ok(()) => {},
            Err(e) => {
                return Err(Error::Json(e));
            },
        }
        assert(text@ =~= compact(value@));
        return Ok(text);
    }
    let mut gv: Vec<char> = Vec::new();
    let mut i: usize = 0;
    while i < cs.len() && i < 10
        invariant
            i <= cs.len(),
            i <= 10,
            cs@ == indent@,
            gv@ == cs@.take(i as int),
        decreases cs.len() - i,
    {
        gv.push(cs[i]);
        i += 1;
        assert(gv@ =~= cs@.take(i as int));
    }
    assert(gv@ =~= gap(indent@));
    let gs = string_from(&gv);
    let pad = String::new();
    let mut two = String::new();
    assert(pad@ == spaces(0));
    match write_pretty(value, &pad, Ghost(0), &mut two) {
        Ok(()) => {},
        Err(e) => {
            return Err(Error::Json(e));
        },
    }
    assert(two@ =~= pretty(value@, 0));
    proof {
        reveal_strlit("  ");
        assert("  "@ =~= two_spaces());
    }
    if str_equal(gs.as_str(), "  ") {
        Ok(two)
    } else {
        Ok(remap_indent(two.as_str(), "  ", gs.as_str()))
    }
}

/// Joins records as `'[' + records.map(r => JSON.stringify(r, null, space)).join(',') + ']'`.
pub fn join_pretty(items: &Vec<Json>, indent: &str) -> (r: Result<String, Error>)
    ensures
        r is Ok,
        r->Ok_0@ == indented_text(items@.map_values(|j: Json| j@), indent@),
{
    let ghost recs = items@.map_values(|j: Json| j@);
    let ghost parts = recs.map_values(|t: JsonTree| pretty_indented(t, indent@));
    let mut out = String::new();
    push_char(&mut out, '[');
    let mut i: usize = 0;
    while i < items.len()
        invariant
            i <= items.len(),
            recs == items@.map_values(|j: Json| j@),
            parts == recs.map_values(|t: JsonTree| pretty_indented(t, indent@)),
            out@ == seq!['['] + comma_join(parts, i as nat),
        decreases items.len() - i,
    {
        if i > 0 {
            push_char(&mut out, ',');
        }
        let part = match pretty_with_indent(&items[i], indent) {
            Ok(p) => p,
            Err(e) => {
                return Err(e);
            },
        };
        append_str(&mut out, part.as_str());
        i += 1;
        assert(out@ =~= seq!['['] + comma_join(parts, i as nat));
    }
    push_char(&mut out, ']');
    Ok(out)
}

} // verus!
