//! The pieces of compact JSON text that the canonical form of a schema is
//! made of: string literals escaped as `serde_json` escapes them, and objects
//! whose members come in ascending key order, as a `serde_json::Map` (a
//! `BTreeMap` without the `preserve_order` feature) keeps them.
use crate::text::{
    chars_of, digit, digit_char, lemma_seq_lt_irreflexive, lemma_seq_lt_total, lemma_seq_lt_transitive,
    push_char, seq_lt, string_lt,
};
use vstd::prelude::*;
use vstd::string::*;

verus! {

/// How `serde_json` writes the character `c` inside a string literal: `"`
/// and `\` after a backslash; backspace, form feed, line feed, carriage
/// return and tab as `\b`, `\f`, `\n`, `\r`, `\t`; the other characters below
/// U+0020 as `\u00` and two lower-case hex digits; every other character as
/// itself.
pub open spec fn escape_char(c: char) -> Seq<char> {
    let v = c as u32;
    if c == '"' {
        seq!['\\', '"']
    } else if c == '\\' {
        seq!['\\', '\\']
    } else if v == 0x8 {
        seq!['\\', 'b']
    } else if v == 0xc {
        seq!['\\', 'f']
    } else if c == '\n' {
        seq!['\\', 'n']
    } else if c == '\r' {
        seq!['\\', 'r']
    } else if c == '\t' {
        seq!['\\', 't']
    } else if v < 0x20 {
        seq!['\\', 'u', '0', '0', digit_char((v / 16) as nat), digit_char((v % 16) as nat)]
    } else {
        seq![c]
    }
}

/// The characters of `s`, each escaped.
pub open spec fn escape_all(s: Seq<char>) -> Seq<char>
    decreases s.len(),
{
    if s.len() == 0 {
        Seq::empty()
    } else {
        escape_all(s.drop_last()) + escape_char(s.last())
    }
}

/// The JSON string literal of `s`, as `serde_json::to_string` writes it.
pub open spec fn json_string(s: Seq<char>) -> Seq<char> {
    seq!['"'] + escape_all(s) + seq!['"']
}

/// `parts` joined with `sep` between neighbours.
pub open spec fn join(parts: Seq<Seq<char>>, sep: Seq<char>) -> Seq<char>
    decreases parts.len(),
{
    if parts.len() == 0 {
        Seq::empty()
    } else if parts.len() == 1 {
        parts[0]
    } else {
        join(parts.drop_last(), sep) + sep + parts.last()
    }
}

/// A JSON member: the key's string literal, a colon, the value's text.
pub open spec fn member_text(m: (Seq<char>, Seq<char>)) -> Seq<char> {
    json_string(m.0) + seq![':'] + m.1
}

/// A compact JSON object with the given members, in the given order.
pub open spec fn object_text(members: Seq<(Seq<char>, Seq<char>)>) -> Seq<char> {
    seq!['{'] + join(members.map_values(|m: (Seq<char>, Seq<char>)| member_text(m)), seq![','])
        + seq!['}']
}

/// Whether the keys of `s` ascend strictly.
pub open spec fn keys_ascending(s: Seq<(Seq<char>, Seq<char>)>) -> bool {
    forall|i: int, j: int| 0 <= i < j < s.len() ==> seq_lt(s[i].0, s[j].0)
}

/// Whether no two members of `s` share a key.
pub open spec fn keys_distinct(s: Seq<(Seq<char>, Seq<char>)>) -> bool {
    forall|i: int, j: int| 0 <= i < s.len() && 0 <= j < s.len() && i != j ==> s[i].0 != s[j].0
}

/// Whether `a` and `b` hold the same members.
pub open spec fn same_members(a: Seq<(Seq<char>, Seq<char>)>, b: Seq<(Seq<char>, Seq<char>)>) -> bool {
    forall|x: (Seq<char>, Seq<char>)| a.contains(x) <==> b.contains(x)
}

/// The members of `s` in ascending key order (the one such order, where keys
/// are distinct).
pub open spec fn in_key_order(s: Seq<(Seq<char>, Seq<char>)>) -> Seq<(Seq<char>, Seq<char>)> {
    choose|t: Seq<(Seq<char>, Seq<char>)>| keys_ascending(t) && same_members(t, s)
}

/// The views of a list of owned members.
pub open spec fn member_views(v: Seq<(String, String)>) -> Seq<(Seq<char>, Seq<char>)> {
    v.map_values(|m: (String, String)| (m.0@, m.1@))
}

/// Two lists in ascending key order that hold the same members are equal.
pub proof fn lemma_key_order_unique(a: Seq<(Seq<char>, Seq<char>)>, b: Seq<(Seq<char>, Seq<char>)>)
    requires
        keys_ascending(a),
        keys_ascending(b),
        same_members(a, b),
    ensures
        a == b,
    decreases a.len(),
{
    if a.len() == 0 {
        if b.len() > 0 {
            assert(b.contains(b[0]));
        }
        assert(a =~= b);
    } else {
        assert(a.contains(a[0]));
        assert(b.len() > 0);
        assert(b.contains(b[0]));
        let j = choose|j: int| 0 <= j < b.len() && b[j] == a[0];
        let i = choose|i: int| 0 <= i < a.len() && a[i] == b[0];
        if j > 0 {
            if i > 0 {
                lemma_seq_lt_total(a[0].0, a[i].0);
            } else {
                lemma_seq_lt_irreflexive(b[0].0);
            }
        }
        assert(a[0] == b[0]);
        let a1 = a.drop_first();
        let b1 = b.drop_first();
        assert forall|x: (Seq<char>, Seq<char>)| a1.contains(x) <==> b1.contains(x) by {
            if a1.contains(x) {
                let k = choose|k: int| 0 <= k < a1.len() && a1[k] == x;
                assert(a.contains(x)) by {
                    assert(a[k + 1] == x);
                }
                let m = choose|m: int| 0 <= m < b.len() && b[m] == x;
                if m == 0 {
                    lemma_seq_lt_irreflexive(a[0].0);
                    assert(seq_lt(a[0].0, a[k + 1].0));
                }
                assert(b1[m - 1] == x);
            }
            if b1.contains(x) {
                let k = choose|k: int| 0 <= k < b1.len() && b1[k] == x;
                assert(b.contains(x)) by {
                    assert(b[k + 1] == x);
                }
                let m = choose|m: int| 0 <= m < a.len() && a[m] == x;
                if m == 0 {
                    lemma_seq_lt_irreflexive(b[0].0);
                    assert(seq_lt(b[0].0, b[k + 1].0));
                }
                assert(a1[m - 1] == x);
            }
        }
        lemma_key_order_unique(a1, b1);
        assert(a =~= seq![a[0]] + a1);
        assert(b =~= seq![b[0]] + b1);
    }
}

/// The members of `v` rearranged into ascending key order.
pub fn sort_members(v: Vec<(String, String)>) -> (r: Vec<(String, String)>)
    requires
        keys_distinct(member_views(v@)),
    ensures
        member_views(r@) == in_key_order(member_views(v@)),
{
    let ghost vv = member_views(v@);
    let mut out: Vec<(String, String)> = Vec::new();
    let mut rest = v;
    let ghost vs = rest@;
    // Take the members from the back so that each `pop` yields the next one.
    while rest.len() > 0
        invariant
            vv == member_views(vs),
            keys_distinct(vv),
            rest@ == vs.take(rest@.len() as int),
            rest@.len() <= vs.len(),
            keys_ascending(member_views(out@)),
            same_members(member_views(out@), vv.skip(rest@.len() as int)),
        decreases rest@.len(),
    {
        let ghost before = out@;
        let ghost k = rest@.len() - 1;
        let item = rest.pop().unwrap();
        assert(item == vs[k]);
        let mut p: usize = 0;
        while p < out.len() && string_lt(&out[p].0, &item.0)
            invariant
                p <= out@.len(),
                out@ == before,
                forall|q: int| 0 <= q < p ==> seq_lt(#[trigger] out@[q].0@, item.0@),
            decreases out@.len() - p,
        {
            p = p + 1;
        }
        proof {
            let ov = member_views(before);
            let x = (item.0@, item.1@);
            assert(vv[k] == x);
            // The new key is not among the keys placed so far.
            assert forall|q: int| 0 <= q < ov.len() implies ov[q].0 != x.0 by {
                assert(ov[q] == (before[q].0@, before[q].1@));
                let sk = vv.skip(k + 1);
                assert(sk.contains(ov[q]));
                let m = choose|m: int| 0 <= m < sk.len() && sk[m] == ov[q];
                assert(vv[k + 1 + m] == ov[q]);
            }
            if p < before.len() {
                lemma_seq_lt_total(before[p as int].0@, item.0@);
            }
        }
        out.insert(p, item);
        proof {
            let ov = member_views(before);
            let nv = member_views(out@);
            let x = vv[k];
            assert(nv =~= ov.insert(p as int, x));
            assert forall|a: int, b: int| 0 <= a < b < nv.len() implies seq_lt(nv[a].0, nv[b].0) by {
                if b < p {
                } else if a < p && b == p {
                } else if a < p {
                    assert(nv[b] == ov[b - 1]);
                    lemma_seq_lt_transitive(nv[a].0, x.0, ov[p as int].0);
                    if b - 1 > p {
                        lemma_seq_lt_transitive(nv[a].0, ov[p as int].0, ov[b - 1].0);
                    }
                } else if a == p {
                    assert(nv[b] == ov[b - 1]);
                    if b - 1 > p {
                        lemma_seq_lt_transitive(x.0, ov[p as int].0, ov[b - 1].0);
                    }
                } else {
                    assert(nv[a] == ov[a - 1]);
                    assert(nv[b] == ov[b - 1]);
                }
            }
            assert(vv.skip(k) =~= seq![x] + vv.skip(k + 1));
            assert forall|y: (Seq<char>, Seq<char>)| nv.contains(y) <==> vv.skip(k).contains(y) by {
                if nv.contains(y) {
                    let m = choose|m: int| 0 <= m < nv.len() && nv[m] == y;
                    if m < p {
                        assert(ov[m] == y);
                        assert(ov.contains(y));
                        let sk = vv.skip(k + 1);
                        let t = choose|t: int| 0 <= t < sk.len() && sk[t] == y;
                        assert(vv.skip(k)[t + 1] == y);
                    } else if m == p {
                        assert(vv.skip(k)[0] == y);
                    } else {
                        assert(ov[m - 1] == y);
                        assert(ov.contains(y));
                        let sk = vv.skip(k + 1);
                        let t = choose|t: int| 0 <= t < sk.len() && sk[t] == y;
                        assert(vv.skip(k)[t + 1] == y);
                    }
                }
                if vv.skip(k).contains(y) {
                    let sk0 = vv.skip(k);
                    let m = choose|m: int| 0 <= m < sk0.len() && sk0[m] == y;
                    if m == 0 {
                        assert(nv[p as int] == y);
                    } else {
                        assert(vv.skip(k + 1)[m - 1] == y);
                        assert(ov.contains(y));
                        let t = choose|t: int| 0 <= t < ov.len() && ov[t] == y;
                        if t < p {
                            assert(nv[t] == y);
                        } else {
                            assert(nv[t + 1] == y);
                        }
                    }
                }
            }
            assert(rest@ =~= vs.take(k));
        }
    }
    proof {
        assert(vv.skip(0) =~= vv);
        let ov = member_views(out@);
        assert(keys_ascending(ov) && same_members(ov, vv));
        assert(exists|t: Seq<(Seq<char>, Seq<char>)>| keys_ascending(t) && same_members(t, vv));
        lemma_key_order_unique(member_views(out@), in_key_order(vv));
    }
    out
}

/// Appends how `serde_json` writes `c` inside a string literal.
fn push_escaped(out: &mut String, c: char)
    ensures
        final(out)@ == old(out)@ + escape_char(c),
{
    let v = c as u32;
    if c == '"' {
        push_char(out, '\\');
        push_char(out, '"');
    } else if c == '\\' {
        push_char(out, '\\');
        push_char(out, '\\');
    } else if v == 0x8 {
        push_char(out, '\\');
        push_char(out, 'b');
    } else if v == 0xc {
        push_char(out, '\\');
        push_char(out, 'f');
    } else if c == '\n' {
        push_char(out, '\\');
        push_char(out, 'n');
    } else if c == '\r' {
        push_char(out, '\\');
        push_char(out, 'r');
    } else if c == '\t' {
        push_char(out, '\\');
        push_char(out, 't');
    } else if v < 0x20 {
        push_char(out, '\\');
        push_char(out, 'u');
        push_char(out, '0');
        push_char(out, '0');
        push_char(out, digit((v / 16) as u64));
        push_char(out, digit((v % 16) as u64));
    } else {
        push_char(out, c);
    }
    assert(final(out)@ =~= old(out)@ + escape_char(c));
}

/// Appends the JSON string literal of `s`.
pub fn push_json_string(out: &mut String, s: &str)
    ensures
        final(out)@ == old(out)@ + json_string(s@),
{
    let ghost start = out@;
    let cs = chars_of(s);
    push_char(out, '"');
    let mut i: usize = 0;
    while i < cs.len()
        invariant
            i <= cs@.len(),
            out@ == start + seq!['"'] + escape_all(cs@.take(i as int)),
        decreases cs@.len() - i,
    {
        push_escaped(out, cs[i]);
        proof {
            assert(cs@.take(i + 1).drop_last() =~= cs@.take(i as int));
            assert(escape_all(cs@.take(i + 1)) == escape_all(cs@.take(i as int)) + escape_char(
                cs@[i as int],
            ));
        }
        i = i + 1;
    }
    push_char(out, '"');
    proof {
        assert(cs@.take(cs@.len() as int) =~= cs@);
        assert(out@ =~= start + json_string(s@));
    }
}

/// Joining one more part appends the separator and the part.
pub proof fn lemma_join_push(parts: Seq<Seq<char>>, sep: Seq<char>, i: int)
    requires
        0 <= i < parts.len(),
    ensures
        join(parts.take(i + 1), sep) == if i == 0 {
            parts[0]
        } else {
            join(parts.take(i), sep) + sep + parts[i]
        },
{
    let t = parts.take(i + 1);
    assert(t.drop_last() =~= parts.take(i));
    if i == 0 {
        assert(t.len() == 1);
    }
}

/// Appends a compact JSON object with the members of `members`, in their
/// order.
pub fn push_object(out: &mut String, members: &Vec<(String, String)>)
    ensures
        final(out)@ == old(out)@ + object_text(member_views(members@)),
{
    let ghost start = out@;
    let ghost mv = member_views(members@);
    let ghost parts = mv.map_values(|m: (Seq<char>, Seq<char>)| member_text(m));
    push_char(out, '{');
    let mut i: usize = 0;
    while i < members.len()
        invariant
            i <= members@.len(),
            mv == member_views(members@),
            parts == mv.map_values(|m: (Seq<char>, Seq<char>)| member_text(m)),
            out@ == start + seq!['{'] + join(parts.take(i as int), seq![',']),
        decreases members@.len() - i,
    {
        let ghost before = out@;
        if i > 0 {
            push_char(out, ',');
        }
        push_json_string(out, members[i].0.as_str());
        push_char(out, ':');
        out.append(members[i].1.as_str());
        proof {
            lemma_join_push(parts, seq![','], i as int);
            assert(parts[i as int] == member_text(mv[i as int]));
            assert(mv[i as int] == (members@[i as int].0@, members@[i as int].1@));
            if i == 0 {
                assert(join(parts.take(0), seq![',']) =~= Seq::<char>::empty());
            }
            assert(out@ =~= start + seq!['{'] + join(parts.take(i + 1), seq![',']));
        }
        i = i + 1;
    }
    push_char(out, '}');
    proof {
        assert(parts.take(members@.len() as int) =~= parts);
        assert(out@ =~= start + object_text(mv));
    }
}

} // verus!
