//! Reading the shell's recent history, as the enclosing shell dumps it
//! (`history > file`), into the commands a user may want to save.
//!
//! Each line is an entry number, a space, and the command. Blank lines, lines
//! without a command, and lines that run `history` or this tool itself are
//! left out. The most recent commands come first.

use vstd::prelude::*;
use crate::text::{chars_of, starts_with_seq, string_of};

verus! {

/// The command that dumps the shell history.
pub const HISTORY_COMMAND: &'static str = "history";

/// The name under which the shell runs this tool.
pub const TOOL_NAME: &'static str = "komando";

/// The characters that `char::is_whitespace` accepts (Unicode White_Space).
pub open spec fn is_space(c: char) -> bool {
    let u = c as u32;
    (0x09 <= u <= 0x0D) || u == 0x20 || u == 0x85 || u == 0xA0 || u == 0x1680 || (0x2000 <= u
        <= 0x200A) || u == 0x2028 || u == 0x2029 || u == 0x202F || u == 0x205F || u == 0x3000
}

/// Whether `c` is whitespace.
pub fn is_space_char(c: char) -> (r: bool)
    ensures
        r == is_space(c),
{
    let u = c as u32;
    (0x09 <= u && u <= 0x0D) || u == 0x20 || u == 0x85 || u == 0xA0 || u == 0x1680 || (0x2000 <= u
        && u <= 0x200A) || u == 0x2028 || u == 0x2029 || u == 0x202F || u == 0x205F || u == 0x3000
}

/// `s` without its leading whitespace.
pub open spec fn trim_start(s: Seq<char>) -> Seq<char>
    decreases s.len(),
{
    if s.len() > 0 && is_space(s[0]) {
        trim_start(s.drop_first())
    } else {
        s
    }
}

/// `s` without its trailing whitespace.
pub open spec fn trim_end(s: Seq<char>) -> Seq<char>
    decreases s.len(),
{
    if s.len() > 0 && is_space(s.last()) {
        trim_end(s.drop_last())
    } else {
        s
    }
}

/// `s` without leading or trailing whitespace.
pub open spec fn trim(s: Seq<char>) -> Seq<char> {
    trim_end(trim_start(s))
}

/// The position of the first space in `s`, or its length when there is none.
pub open spec fn first_space(s: Seq<char>) -> int
    decreases s.len(),
{
    if s.len() == 0 {
        0
    } else if s[0] == ' ' {
        0
    } else {
        1 + first_space(s.drop_first())
    }
}

/// The pieces of `s` between line feeds.
pub open spec fn lines_of(s: Seq<char>) -> Seq<Seq<char>>
    decreases s.len(),
{
    if s.len() == 0 {
        seq![Seq::empty()]
    } else {
        let p = lines_of(s.drop_last());
        if s.last() == '\n' {
            p.push(Seq::empty())
        } else if p.len() > 0 {
            p.update(p.len() - 1, p.last().push(s.last()))
        } else {
            p
        }
    }
}

/// The command that one history line holds, if it is worth keeping: the
/// trimmed text after the entry number, unless it is empty or runs
/// `history` or this tool.
pub open spec fn history_entry(line: Seq<char>) -> Option<Seq<char>> {
    let t = trim(line);
    let k = first_space(t);
    if k >= t.len() {
        None
    } else {
        let cmd = trim(t.subrange(k + 1, t.len() as int));
        if cmd.len() == 0 || starts_with_seq(cmd, HISTORY_COMMAND@) || starts_with_seq(
            cmd,
            TOOL_NAME@,
        ) {
            None
        } else {
            Some(cmd)
        }
    }
}

/// The commands kept from `lines`, in order.
pub open spec fn entries_of(lines: Seq<Seq<char>>) -> Seq<Seq<char>>
    decreases lines.len(),
{
    if lines.len() == 0 {
        Seq::empty()
    } else {
        let p = entries_of(lines.drop_last());
        match history_entry(lines.last()) {
            Some(c) => p.push(c),
            None => p,
        }
    }
}

/// The last `count` commands of a history dump, most recent first.
pub open spec fn recent_commands(content: Seq<char>, count: nat) -> Seq<Seq<char>> {
    let e = entries_of(lines_of(content));
    e.reverse().take(if count < e.len() { count as int } else { e.len() as int })
}

/// Where the trimmed `v[from..to]` lies.
fn trim_bounds(v: &Vec<char>, from: usize, to: usize) -> (r: (usize, usize))
    requires
        from <= to <= v@.len(),
    ensures
        from <= r.0 <= r.1 <= to,
        v@.subrange(r.0 as int, r.1 as int) == trim(v@.subrange(from as int, to as int)),
{
    let mut x: usize = from;
    while x < to && is_space_char(v[x])
        invariant
            from <= x <= to <= v@.len(),
            trim_start(v@.subrange(from as int, to as int)) == trim_start(
                v@.subrange(x as int, to as int),
            ),
        decreases to - x,
    {
        assert(v@.subrange(x as int, to as int).drop_first() =~= v@.subrange(x + 1, to as int));
        x += 1;
    }
    assert(trim_start(v@.subrange(x as int, to as int)) == v@.subrange(x as int, to as int));
    let mut y: usize = to;
    while y > x && is_space_char(v[y - 1])
        invariant
            from <= x <= y <= to <= v@.len(),
            trim_end(v@.subrange(x as int, to as int)) == trim_end(
                v@.subrange(x as int, y as int),
            ),
        decreases y - x,
    {
        assert(v@.subrange(x as int, y as int).drop_last() =~= v@.subrange(x as int, y - 1));
        y -= 1;
    }
    (x, y)
}

/// Whether `v[from..to]` begins with `prefix`.
fn starts_with_at(v: &Vec<char>, from: usize, to: usize, prefix: &Vec<char>) -> (r: bool)
    requires
        from <= to <= v@.len(),
    ensures
        r == starts_with_seq(v@.subrange(from as int, to as int), prefix@),
{
    if prefix.len() > to - from {
        return false;
    }
    let mut j: usize = 0;
    while j < prefix.len()
        invariant
            from + prefix@.len() <= to <= v@.len(),
            j <= prefix@.len(),
            forall|k: int| 0 <= k < j ==> v@[from + k] == prefix@[k],
        decreases prefix@.len() - j,
    {
        if v[from + j] != prefix[j] {
            assert(v@.subrange(from as int, to as int).subrange(0, prefix@.len() as int)[j as int]
                != prefix@[j as int]);
            return false;
        }
        j += 1;
    }
    assert(v@.subrange(from as int, to as int).subrange(0, prefix@.len() as int) =~= prefix@);
    true
}

/// Where the command of the history line `v[from..to]` lies, if it is kept.
fn line_entry(v: &Vec<char>, from: usize, to: usize, hist: &Vec<char>, tool: &Vec<char>) -> (r:
    Option<(usize, usize)>)
    requires
        from <= to <= v@.len(),
        hist@ == HISTORY_COMMAND@,
        tool@ == TOOL_NAME@,
    ensures
        match r {
            Some(b) => b.0 <= b.1 <= v@.len() && history_entry(
                v@.subrange(from as int, to as int),
            ) == Some(v@.subrange(b.0 as int, b.1 as int)),
            None => history_entry(v@.subrange(from as int, to as int)) is None,
        },
{
    let (ta, tb) = trim_bounds(v, from, to);
    let ghost t = v@.subrange(ta as int, tb as int);
    let mut j: usize = ta;
    while j < tb && v[j] != ' '
        invariant
            ta <= j <= tb <= v@.len(),
            t == v@.subrange(ta as int, tb as int),
            first_space(t) == (j - ta) + first_space(v@.subrange(j as int, tb as int)),
        decreases tb - j,
    {
        assert(v@.subrange(j as int, tb as int).drop_first() =~= v@.subrange(j + 1, tb as int));
        j += 1;
    }
    if j == tb {
        return None;
    }
    let (ca, cb) = trim_bounds(v, j + 1, tb);
    assert(t.subrange(j - ta + 1, t.len() as int) =~= v@.subrange(j + 1, tb as int));
    if ca == cb {
        return None;
    }
    if starts_with_at(v, ca, cb, hist) || starts_with_at(v, ca, cb, tool) {
        return None;
    }
    Some((ca, cb))
}

/// The last `count` commands of a history dump, most recent first; see the
/// module documentation for which lines count.
pub fn last_commands(content: &str, count: usize) -> (r: Vec<String>)
    ensures
        r@.map_values(|s: String| s@) == recent_commands(content@, count as nat),
{
    let v = chars_of(content);
    let hist = chars_of(HISTORY_COMMAND);
    let tool = chars_of(TOOL_NAME);
    let mut found: Vec<(usize, usize)> = Vec::new();
    let ghost mut done: Seq<Seq<char>> = Seq::empty();
    let mut start: usize = 0;
    let mut i: usize = 0;
    assert(v@.subrange(0, 0) =~= Seq::<char>::empty());
    assert(done.push(v@.subrange(0, 0)) =~= lines_of(v@.subrange(0, 0)));
    while i < v.len()
        invariant
            hist@ == HISTORY_COMMAND@,
            tool@ == TOOL_NAME@,
            start <= i <= v@.len(),
            done.push(v@.subrange(start as int, i as int)) == lines_of(v@.subrange(0, i as int)),
            forall|k: int| 0 <= k < found@.len() ==> (#[trigger] found@[k]).0 <= found@[k].1 <= v@.len(),
            found@.map_values(|b: (usize, usize)| v@.subrange(b.0 as int, b.1 as int))
                == entries_of(done),
        decreases v@.len() - i,
    {
        let ghost pre = v@.subrange(0, i as int);
        let ghost cur = v@.subrange(start as int, i as int);
        assert(v@.subrange(0, i + 1).drop_last() =~= pre);
        assert(v@.subrange(0, i + 1).last() == v@[i as int]);
        if v[i] == '\n' {
            let e = line_entry(&v, start, i, &hist, &tool);
            let ghost before = found@;
            if let Some(b) = e {
                found.push(b);
                assert(found@.map_values(|b: (usize, usize)| v@.subrange(b.0 as int, b.1 as int))
                    =~= before.map_values(
                    |b: (usize, usize)| v@.subrange(b.0 as int, b.1 as int),
                ).push(v@.subrange(b.0 as int, b.1 as int)));
            }
            proof {
                assert(done.push(cur).drop_last() =~= done);
                assert(done.push(cur).last() == cur);
                done = done.push(cur);
                assert(v@.subrange(i + 1, i + 1) =~= Seq::<char>::empty());
            }
            start = i + 1;
        } else {
            proof {
                let p = done.push(cur);
                assert(p.last() == cur);
                assert(cur.push(v@[i as int]) =~= v@.subrange(start as int, i + 1));
                assert(p.update(p.len() - 1, p.last().push(v@[i as int])) =~= done.push(
                    v@.subrange(start as int, i + 1),
                ));
            }
        }
        i += 1;
    }
    assert(v@.subrange(0, v@.len() as int) =~= v@);
    let last = line_entry(&v, start, v.len(), &hist, &tool);
    proof {
        let cur = v@.subrange(start as int, v@.len() as int);
        assert(done.push(cur).drop_last() =~= done);
        assert(done.push(cur).last() == cur);
    }
    let ghost before = found@;
    if let Some(b) = last {
        found.push(b);
        assert(found@.map_values(|b: (usize, usize)| v@.subrange(b.0 as int, b.1 as int))
            =~= before.map_values(|b: (usize, usize)| v@.subrange(b.0 as int, b.1 as int)).push(
            v@.subrange(b.0 as int, b.1 as int),
        ));
    }
    let ghost entries = entries_of(lines_of(content@));
    assert(found@.map_values(|b: (usize, usize)| v@.subrange(b.0 as int, b.1 as int))
        == entries);
    let n: usize = if count < found.len() {
        count
    } else {
        found.len()
    };
    let mut r: Vec<String> = Vec::new();
    let mut k: usize = 0;
    while k < n
        invariant
            n <= found@.len(),
            k <= n,
            forall|q: int| 0 <= q < found@.len() ==> (#[trigger] found@[q]).0 <= found@[q].1 <= v@.len(),
            found@.map_values(|b: (usize, usize)| v@.subrange(b.0 as int, b.1 as int))
                == entries,
            r@.len() == k,
            forall|q: int|
                0 <= q < k ==> #[trigger] r@[q]@ == entries[entries.len() - 1 - q],
        decreases n - k,
    {
        let b = found[found.len() - 1 - k];
        let s = string_of(&v, b.0, b.1);
        r.push(s);
        k += 1;
    }
    assert(r@.map_values(|s: String| s@) =~= recent_commands(content@, count as nat));
    r
}

} // verus!
