//! A flat text form for string tables: `key:value` pairs joined by `;`,
//! with `\`, `:` and `;` inside keys and values escaped by a backslash.

use vstd::prelude::*;
use vstd::string::StringExecFns;
use crate::kv::{as_map, has_key, key_index, keys_distinct, lemma_as_map_push, lemma_as_map_update};
use crate::text::push_char;

verus! {

/// The characters that take a backslash in front of them.
pub open spec fn is_special(c: char) -> bool {
    c == '\\' || c == ':' || c == ';'
}

/// `s` with a backslash before each special character.
pub open spec fn escaped(s: Seq<char>) -> Seq<char>
    decreases s.len(),
{
    if s.len() == 0 {
        Seq::empty()
    } else {
        let c = s.last();
        escaped(s.drop_last()) + if is_special(c) {
            seq!['\\', c]
        } else {
            seq![c]
        }
    }
}

/// One pair in text form: escaped key, `:`, escaped value.
pub open spec fn pair_text(p: (Seq<char>, Seq<char>)) -> Seq<char> {
    escaped(p.0) + seq![':'] + escaped(p.1)
}

/// The text form of the pairs `m`, in order, joined by `;`.
pub open spec fn serialized(m: Seq<(Seq<char>, Seq<char>)>) -> Seq<char>
    decreases m.len(),
{
    if m.len() == 0 {
        Seq::empty()
    } else if m.len() == 1 {
        pair_text(m[0])
    } else {
        serialized(m.drop_last()) + seq![';'] + pair_text(m.last())
    }
}

/// A piece of text form read so far: its key, its value, and whether its
/// `:` was seen.
pub type Piece = (Seq<char>, Seq<char>, bool);

/// Where a reader of the text form stands: the finished pieces, the piece
/// being read, and whether the last character was an unused backslash.
pub type ScanState = (Seq<Piece>, Piece, bool);

/// The state before any character.
pub open spec fn scan_start() -> ScanState {
    (Seq::empty(), (Seq::empty(), Seq::empty(), false), false)
}

/// `p` with `s` added to the part being read: the key before the `:`,
/// the value after it.
pub open spec fn piece_add(p: Piece, s: Seq<char>) -> Piece {
    if p.2 {
        (p.0, p.1 + s, true)
    } else {
        (p.0 + s, p.1, false)
    }
}

/// Reading one character `c`.  After a backslash, a special character is
/// taken literally and any other is kept with the backslash; an unescaped
/// `;` ends the piece, the first unescaped `:` of a piece starts its value.
pub open spec fn step(st: ScanState, c: char) -> ScanState {
    let (done, cur, pending) = st;
    if pending {
        if is_special(c) {
            (done, piece_add(cur, seq![c]), false)
        } else {
            (done, piece_add(cur, seq!['\\', c]), false)
        }
    } else if c == '\\' {
        (done, cur, true)
    } else if c == ';' {
        (done.push(cur), (Seq::empty(), Seq::empty(), false), false)
    } else if c == ':' && !cur.2 {
        (done, (cur.0, cur.1, true), false)
    } else {
        (done, piece_add(cur, seq![c]), false)
    }
}

/// The state after reading `data` from `st`.
pub open spec fn run(st: ScanState, data: Seq<char>) -> ScanState
    decreases data.len(),
{
    if data.len() == 0 {
        st
    } else {
        step(run(st, data.drop_last()), data.last())
    }
}

/// All pieces once the text ends; a trailing lone backslash is kept.
pub open spec fn finish(st: ScanState) -> Seq<Piece> {
    let (done, cur, pending) = st;
    done.push(
        if pending {
            piece_add(cur, seq!['\\'])
        } else {
            cur
        },
    )
}

/// `m` with key `k` set to `v`: replaced in place when present, appended
/// otherwise.
pub open spec fn insert_pair(m: Seq<(Seq<char>, Seq<char>)>, k: Seq<char>, v: Seq<char>) -> Seq<(Seq<char>, Seq<char>)> {
    if has_key(m, k) {
        m.update(key_index(m, k), (k, v))
    } else {
        m.push((k, v))
    }
}

/// The table made of the pieces that have a `:`, later ones winning.
pub open spec fn collect(ps: Seq<Piece>) -> Seq<(Seq<char>, Seq<char>)>
    decreases ps.len(),
{
    if ps.len() == 0 {
        Seq::empty()
    } else {
        let m = collect(ps.drop_last());
        let p = ps.last();
        if p.2 {
            insert_pair(m, p.0, p.1)
        } else {
            m
        }
    }
}

/// The table read from the text `data`.
pub open spec fn deserialized(data: Seq<char>) -> Seq<(Seq<char>, Seq<char>)> {
    collect(finish(run(scan_start(), data)))
}

/// The pairs of `v` by their views.
pub open spec fn pairs_view(v: Seq<(String, String)>) -> Seq<(Seq<char>, Seq<char>)> {
    v.map_values(|p: (String, String)| (p.0@, p.1@))
}

proof fn lemma_run_concat(st: ScanState, a: Seq<char>, b: Seq<char>)
    ensures
        run(st, a + b) == run(run(st, a), b),
    decreases b.len(),
{
    if b.len() == 0 {
        assert(a + b =~= a);
    } else {
        lemma_run_concat(st, a, b.drop_last());
        assert((a + b).drop_last() =~= a + b.drop_last());
        assert((a + b).last() == b.last());
    }
}

proof fn lemma_run_one(st: ScanState, c: char)
    ensures
        run(st, seq![c]) == step(st, c),
{
    assert(seq![c].drop_last() =~= Seq::<char>::empty());
    assert(run(st, Seq::<char>::empty()) == st);
}

proof fn lemma_run_two(st: ScanState, a: char, b: char)
    ensures
        run(st, seq![a, b]) == step(step(st, a), b),
{
    assert(seq![a, b].drop_last() =~= seq![a]);
    lemma_run_one(st, a);
}

proof fn lemma_run_escaped(st: ScanState, s: Seq<char>)
    requires
        !st.2,
    ensures
        run(st, escaped(s)) == (st.0, piece_add(st.1, s), false),
    decreases s.len(),
{
    if s.len() == 0 {
        assert(escaped(s) == Seq::<char>::empty());
        assert(st.1.0 + s =~= st.1.0);
        assert(st.1.1 + s =~= st.1.1);
        assert(piece_add(st.1, s) == st.1);
        assert(st == (st.0, st.1, st.2));
    } else {
        let c = s.last();
        let front = escaped(s.drop_last());
        lemma_run_escaped(st, s.drop_last());
        let mid = (st.0, piece_add(st.1, s.drop_last()), false);
        if is_special(c) {
            lemma_run_concat(st, front, seq!['\\', c]);
            lemma_run_two(mid, '\\', c);
        } else {
            lemma_run_concat(st, front, seq![c]);
            lemma_run_one(mid, c);
        }
        assert(piece_add(piece_add(st.1, s.drop_last()), seq![c]) == piece_add(st.1, s)) by {
            assert(st.1.0 + s.drop_last() + seq![c] =~= st.1.0 + s);
            assert(st.1.1 + s.drop_last() + seq![c] =~= st.1.1 + s);
        }
    }
}

/// Reading one pair's text from a state with nothing pending.
proof fn lemma_run_pair(done: Seq<Piece>, p: (Seq<char>, Seq<char>))
    ensures
        run((done, (Seq::empty(), Seq::empty(), false), false), pair_text(p)) == (done, (p.0, p.1, true), false),
{
    let st0: ScanState = (done, (Seq::empty(), Seq::empty(), false), false);
    lemma_run_escaped(st0, p.0);
    let st1: ScanState = (done, (p.0, Seq::empty(), false), false);
    assert(piece_add(st0.1, p.0) == st1.1) by {
        assert(Seq::<char>::empty() + p.0 =~= p.0);
    }
    lemma_run_concat(st0, escaped(p.0), seq![':']);
    lemma_run_one(st1, ':');
    let st2: ScanState = (done, (p.0, Seq::empty(), true), false);
    assert(run(st1, seq![':']) == st2);
    lemma_run_concat(st0, escaped(p.0) + seq![':'], escaped(p.1));
    lemma_run_escaped(st2, p.1);
    assert(piece_add(st2.1, p.1) == (p.0, p.1, true)) by {
        assert(Seq::<char>::empty() + p.1 =~= p.1);
    }
}

/// The pieces of a table, each with its `:`.
pub open spec fn pieces_of(m: Seq<(Seq<char>, Seq<char>)>) -> Seq<Piece> {
    m.map_values(|p: (Seq<char>, Seq<char>)| (p.0, p.1, true))
}

proof fn lemma_run_serialized(m: Seq<(Seq<char>, Seq<char>)>)
    requires
        m.len() > 0,
    ensures
        run(scan_start(), serialized(m)) == (pieces_of(m.drop_last()), (m.last().0, m.last().1, true), false),
    decreases m.len(),
{
    if m.len() == 1 {
        lemma_run_pair(Seq::empty(), m[0]);
        assert(pieces_of(m.drop_last()) =~= Seq::<Piece>::empty());
    } else {
        let front = m.drop_last();
        lemma_run_serialized(front);
        let st = run(scan_start(), serialized(front));
        lemma_run_concat(scan_start(), serialized(front), seq![';']);
        lemma_run_one(st, ';');
        let done = pieces_of(front.drop_last()).push((front.last().0, front.last().1, true));
        assert(done =~= pieces_of(m.drop_last()));
        lemma_run_concat(scan_start(), serialized(front) + seq![';'], pair_text(m.last()));
        lemma_run_pair(done, m.last());
    }
}

proof fn lemma_collect_distinct(m: Seq<(Seq<char>, Seq<char>)>)
    requires
        keys_distinct(m),
    ensures
        collect(pieces_of(m)) == m,
    decreases m.len(),
{
    if m.len() > 0 {
        let front = m.drop_last();
        assert(keys_distinct(front)) by {
            assert forall|i: int, j: int| 0 <= i < j < front.len() implies #[trigger] front[i].0
                != #[trigger] front[j].0 by {
                assert(m[i].0 != m[j].0);
            }
        }
        lemma_collect_distinct(front);
        assert(pieces_of(m).drop_last() =~= pieces_of(front));
        if has_key(front, m.last().0) {
            let j = key_index(front, m.last().0);
            assert(m[j].0 != m[m.len() - 1].0);
        }
        assert(front.push((m.last().0, m.last().1)) =~= m);
    }
}

/// Appends `s` with its special characters escaped.
fn append_escaped(out: &mut String, s: &str)
    ensures
        final(out)@ == old(out)@ + escaped(s@),
{
    let chars = crate::text::chars_of(s);
    let ghost start = out@;
    let mut i: usize = 0;
    while i < chars.len()
        invariant
            i <= chars.len(),
            chars@ == s@,
            out@ == start + escaped(chars@.take(i as int)),
        decreases chars.len() - i,
    {
        let c = chars[i];
        assert(chars@.take(i + 1).drop_last() =~= chars@.take(i as int));
        assert(chars@.take(i + 1).last() == c);
        if c == '\\' || c == ':' || c == ';' {
            push_char(out, '\\');
            push_char(out, c);
            assert(out@ =~= start + escaped(chars@.take(i + 1)));
        } else {
            push_char(out, c);
            assert(out@ =~= start + escaped(chars@.take(i + 1)));
        }
        i = i + 1;
    }
    assert(chars@.take(chars.len() as int) =~= s@);
}

/// The text form of `map`: its pairs in order, each as escaped key, `:`
/// and escaped value, joined by `;`.
pub fn serialize_simple_map(map: &Vec<(String, String)>) -> (r: String)
    ensures
        r@ == serialized(pairs_view(map@)),
{
    let ghost m = pairs_view(map@);
    let mut out = String::new();
    let mut i: usize = 0;
    while i < map.len()
        invariant
            i <= map.len(),
            m == pairs_view(map@),
            out@ == serialized(m.take(i as int)),
        decreases map.len() - i,
    {
        let ghost before = out@;
        assert(m.take(i + 1).drop_last() =~= m.take(i as int));
        assert(m.take(i + 1).last() == m[i as int]);
        if i > 0 {
            push_char(&mut out, ';');
        }
        append_escaped(&mut out, map[i].0.as_str());
        push_char(&mut out, ':');
        append_escaped(&mut out, map[i].1.as_str());
        proof {
            if i == 0 {
                assert(m.take(1)[0] == m[0]);
                assert(before == Seq::<char>::empty());
            }
        }
        assert(out@ =~= serialized(m.take(i + 1)));
        i = i + 1;
    }
    assert(m.take(map.len() as int) =~= m);
    out
}

/// Sets `key` to `value` in `table`: in place when the key is there,
/// appended otherwise.
pub(crate) fn put_pair(table: &mut Vec<(String, String)>, key: String, value: String)
    requires
        keys_distinct(pairs_view(old(table)@)),
    ensures
        keys_distinct(pairs_view(final(table)@)),
        pairs_view(final(table)@) == insert_pair(pairs_view(old(table)@), key@, value@),
{
    let ghost pv = pairs_view(table@);
    let ghost kv = (key@, value@);
    match crate::kv::find_key(table, key.as_str()) {
        Some(i) => {
            proof {
                crate::kv::lemma_as_map_at(pv, i as int);
                lemma_as_map_update(pv, i as int, kv.1);
            }
            table.set(i, (key, value));
            assert(pairs_view(table@) =~= pv.update(i as int, kv));
        },
        None => {
            proof {
                if has_key(pv, kv.0) {
                    let j = key_index(pv, kv.0);
                    assert(table@[j].0@ == kv.0);
                }
                lemma_as_map_push(pv, kv.0, kv.1);
            }
            table.push((key, value));
            assert(pairs_view(table@) =~= pv.push(kv));
        },
    }
}

/// Adds `s` to the key before the `:` and to the value after it.
fn add_to_piece(key: &mut String, value: &mut String, colon: bool, c: char)
    ensures
        (final(key)@, final(value)@, colon) == piece_add((old(key)@, old(value)@, colon), seq![c]),
{
    if colon {
        push_char(value, c);
    } else {
        push_char(key, c);
    }
}

/// The table read from the text form `data`: pieces split at unescaped
/// `;`, each split at its first unescaped `:` into key and value; pieces
/// without `:` are skipped and a later key wins over an earlier one.
pub fn deserialize_simple_map(data: &str) -> (r: Vec<(String, String)>)
    ensures
        pairs_view(r@) == deserialized(data@),
        keys_distinct(pairs_view(r@)),
{
    let chars = crate::text::chars_of(data);
    let mut table: Vec<(String, String)> = Vec::new();
    let mut key = String::new();
    let mut value = String::new();
    let mut colon = false;
    let mut pending = false;
    let ghost mut done: Seq<Piece> = Seq::empty();
    assert(pairs_view(table@) =~= collect(done));
    let mut i: usize = 0;
    while i < chars.len()
        invariant
            i <= chars.len(),
            chars@ == data@,
            run(scan_start(), chars@.take(i as int)) == (done, (key@, value@, colon), pending),
            pairs_view(table@) == collect(done),
            keys_distinct(pairs_view(table@)),
        decreases chars.len() - i,
    {
        let c = chars[i];
        let ghost st = (done, (key@, value@, colon), pending);
        assert(chars@.take(i + 1).drop_last() =~= chars@.take(i as int));
        assert(chars@.take(i + 1).last() == c);
        if pending {
            if c == '\\' || c == ':' || c == ';' {
                add_to_piece(&mut key, &mut value, colon, c);
            } else {
                add_to_piece(&mut key, &mut value, colon, '\\');
                add_to_piece(&mut key, &mut value, colon, c);
                proof {
                    assert(st.1.0 + seq!['\\'] + seq![c] =~= st.1.0 + seq!['\\', c]);
                    assert(st.1.1 + seq!['\\'] + seq![c] =~= st.1.1 + seq!['\\', c]);
                }
            }
            pending = false;
        } else if c == '\\' {
            pending = true;
        } else if c == ';' {
            let ghost piece = (key@, value@, colon);
            let k = key;
            let v = value;
            if colon {
                put_pair(&mut table, k, v);
            }
            proof {
                assert(done.push(piece).drop_last() =~= done);
                done = done.push(piece);
            }
            key = String::new();
            value = String::new();
            colon = false;
        } else if c == ':' && !colon {
            colon = true;
        } else {
            add_to_piece(&mut key, &mut value, colon, c);
        }
        assert(run(scan_start(), chars@.take(i + 1)) == (done, (key@, value@, colon), pending));
        i = i + 1;
    }
    assert(chars@.take(chars.len() as int) =~= data@);
    if pending {
        add_to_piece(&mut key, &mut value, colon, '\\');
    }
    let ghost piece = (key@, value@, colon);
    let ghost all = done.push(piece);
    assert(all == finish(run(scan_start(), data@)));
    assert(all.drop_last() =~= done);
    if colon {
        put_pair(&mut table, key, value);
    }
    table
}

/// Reading back the text form of a table with no key twice gives the same
/// table, pair for pair and in the same order.
pub proof fn lemma_roundtrip(m: Seq<(Seq<char>, Seq<char>)>)
    requires
        keys_distinct(m),
    ensures
        deserialized(serialized(m)) == m,
{
    if m.len() == 0 {
        assert(serialized(m) == Seq::<char>::empty());
        let ps = finish(scan_start());
        assert(run(scan_start(), Seq::<char>::empty()) == scan_start());
        assert(ps.len() == 1);
        assert(ps.drop_last() =~= Seq::<Piece>::empty());
        assert(!ps.last().2);
        assert(collect(ps.drop_last()) == Seq::<(Seq<char>, Seq<char>)>::empty());
        assert(collect(ps) =~= m);
    } else {
        lemma_run_serialized(m);
        assert(finish(run(scan_start(), serialized(m))) =~= pieces_of(m));
        lemma_collect_distinct(m);
    }
}

} // verus!
