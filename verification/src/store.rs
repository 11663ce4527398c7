//! The credential store: an in-memory mapping from username to encoded
//! hash, bound to a backing file path.  The store itself is memory-first;
//! reading and writing the file is the caller's step, through
//! `from_contents` and `to_file_contents`.

use vstd::prelude::*;
use vstd::string::*;

verus! {

use crate::HASH_VERSION;
use crate::MAX_HASH_INPUT;
use crate::codec::spec_decode;
use crate::codec::decode_hash;
use crate::hashing::spec_derive;
use crate::text::find_idx;
use crate::text::find_char;
use crate::text::sep_free;
use crate::text::spec_split;
use crate::text::split_str;
use crate::text::lemma_find_idx;
use crate::text::lemma_find_idx_first;
use crate::text::lemma_split_whole;
use crate::text::lemma_split_concat;
use crate::text::lemma_split_parts_sep_free;

/// Pairwise distinct usernames.
pub open spec fn unique_keys(rs: Seq<(Seq<char>, Seq<char>)>) -> bool {
    forall|i: int, j: int| 0 <= i < j < rs.len() ==> (#[trigger] rs[i]).0 != (#[trigger] rs[j]).0
}

/// The mapping a record list denotes; on duplicate keys the later record
/// would win, but the store keeps keys unique.
pub open spec fn map_of(rs: Seq<(Seq<char>, Seq<char>)>) -> Map<Seq<char>, Seq<char>>
    decreases rs.len(),
{
    if rs.len() == 0 {
        Map::empty()
    } else {
        map_of(rs.drop_last()).insert(rs.last().0, rs.last().1)
    }
}

/// A key is in the mapping exactly when some record carries it.
pub proof fn lemma_map_of_contains(rs: Seq<(Seq<char>, Seq<char>)>, k: Seq<char>)
    ensures
        map_of(rs).contains_key(k) <==> exists|i: int|
            0 <= i < rs.len() && (#[trigger] rs[i]).0 == k,
    decreases rs.len(),
{
    if rs.len() > 0 {
        lemma_map_of_contains(rs.drop_last(), k);
        if rs.last().0 == k {
            assert((rs[rs.len() - 1]).0 == k);
        } else if map_of(rs).contains_key(k) {
            let i = choose|i: int| 0 <= i < rs.drop_last().len() && (#[trigger] rs.drop_last()[i]).0
                == k;
            assert((rs[i]).0 == k);
        } else {
            assert forall|i: int| 0 <= i < rs.len() implies (#[trigger] rs[i]).0 != k by {
                if i < rs.len() - 1 {
                    assert(rs.drop_last()[i] == rs[i]);
                }
            }
        }
    }
}

/// With unique keys, each record's key looks up that record's value.
pub proof fn lemma_map_of_index(rs: Seq<(Seq<char>, Seq<char>)>, i: int)
    requires
        unique_keys(rs),
        0 <= i < rs.len(),
    ensures
        map_of(rs).contains_key(rs[i].0),
        map_of(rs)[rs[i].0] == rs[i].1,
    decreases rs.len(),
{
    if i < rs.len() - 1 {
        assert(rs.drop_last()[i] == rs[i]);
        lemma_map_of_index(rs.drop_last(), i);
        assert(rs.last().0 != rs[i].0);
    }
}

/// Replacing the value at one record inserts over its key.
proof fn lemma_map_of_update(rs: Seq<(Seq<char>, Seq<char>)>, i: int, v: Seq<char>)
    requires
        unique_keys(rs),
        0 <= i < rs.len(),
    ensures
        map_of(rs.update(i, (rs[i].0, v))) == map_of(rs).insert(rs[i].0, v),
        unique_keys(rs.update(i, (rs[i].0, v))),
    decreases rs.len(),
{
    let k = rs[i].0;
    let w = rs.update(i, (k, v));
    assert forall|a: int, b: int| 0 <= a < b < w.len() implies (#[trigger] w[a]).0 != (
    #[trigger] w[b]).0 by {
        assert(w[a].0 == rs[a].0 && w[b].0 == rs[b].0);
    }
    if i == rs.len() - 1 {
        assert(w.drop_last() =~= rs.drop_last());
        assert(w.last() == (k, v));
        assert(map_of(rs).insert(k, v) =~= map_of(rs.drop_last()).insert(k, v));
    } else {
        assert(w.drop_last() =~= rs.drop_last().update(i, (k, v)));
        assert(rs.drop_last()[i] == rs[i]);
        lemma_map_of_update(rs.drop_last(), i, v);
        assert(w.last() == rs.last());
        assert(rs.last().0 != k);
        assert(map_of(rs.drop_last()).insert(k, v).insert(rs.last().0, rs.last().1)
            =~= map_of(rs.drop_last()).insert(rs.last().0, rs.last().1).insert(k, v));
    }
}

/// Removing one record removes its key.
proof fn lemma_map_of_remove(rs: Seq<(Seq<char>, Seq<char>)>, i: int)
    requires
        unique_keys(rs),
        0 <= i < rs.len(),
    ensures
        map_of(rs.remove(i)) == map_of(rs).remove(rs[i].0),
        unique_keys(rs.remove(i)),
    decreases rs.len(),
{
    let k = rs[i].0;
    let w = rs.remove(i);
    assert forall|a: int, b: int| 0 <= a < b < w.len() implies (#[trigger] w[a]).0 != (
    #[trigger] w[b]).0 by {
        if b < i {
            assert(w[a] == rs[a] && w[b] == rs[b]);
        } else if a < i {
            assert(w[a] == rs[a] && w[b] == rs[b + 1]);
        } else {
            assert(w[a] == rs[a + 1] && w[b] == rs[b + 1]);
        }
    }
    if i == rs.len() - 1 {
        assert(w =~= rs.drop_last());
        lemma_map_of_contains(rs.drop_last(), k);
        assert forall|j: int| 0 <= j < rs.drop_last().len() implies (#[trigger] rs.drop_last()[j]).0
            != k by {
            assert(rs.drop_last()[j] == rs[j]);
        }
        assert(!map_of(rs.drop_last()).contains_key(k));
        assert(map_of(rs.drop_last()).insert(k, rs.last().1).remove(k) =~= map_of(rs.drop_last()));
    } else {
        assert(w.drop_last() =~= rs.drop_last().remove(i));
        assert(rs.drop_last()[i] == rs[i]);
        lemma_map_of_remove(rs.drop_last(), i);
        assert(w.last() == rs.last());
        assert(rs.last().0 != k);
        assert(map_of(rs.drop_last()).remove(k).insert(rs.last().0, rs.last().1)
            =~= map_of(rs.drop_last()).insert(rs.last().0, rs.last().1).remove(k));
    }
}

/// The username and hash a line carries, split at its first `:`; a line
/// without the delimiter — an empty line included — carries no record.
pub open spec fn line_record(line: Seq<char>) -> Option<(Seq<char>, Seq<char>)> {
    let f = find_idx(line, ':');
    if f < 0 {
        None
    } else {
        Some((line.take(f), line.skip(f + 1)))
    }
}

/// One line folded into the mapping: a malformed line changes nothing, and
/// a username already present keeps its earlier hash.
pub open spec fn load_step(m: Map<Seq<char>, Seq<char>>, line: Seq<char>) -> Map<
    Seq<char>,
    Seq<char>,
> {
    match line_record(line) {
        None => m,
        Some((u, h)) => if m.contains_key(u) {
            m
        } else {
            m.insert(u, h)
        },
    }
}

/// The lines folded in order into an accumulator mapping.
pub open spec fn load_fold(m: Map<Seq<char>, Seq<char>>, lines: Seq<Seq<char>>) -> Map<
    Seq<char>,
    Seq<char>,
>
    decreases lines.len(),
{
    if lines.len() == 0 {
        m
    } else {
        load_fold(load_step(m, lines.first()), lines.drop_first())
    }
}

/// The mapping a backing file's text denotes.
pub open spec fn spec_load(text: Seq<char>) -> Map<Seq<char>, Seq<char>> {
    load_fold(Map::empty(), spec_split(text, '\n'))
}

/// Folding one more line at the end applies one more step.
proof fn lemma_load_fold_snoc(m: Map<Seq<char>, Seq<char>>, lines: Seq<Seq<char>>, line: Seq<char>)
    ensures
        load_fold(m, lines.push(line)) == load_step(load_fold(m, lines), line),
    decreases lines.len(),
{
    let w = lines.push(line);
    assert(w.len() > 0);
    if lines.len() == 0 {
        assert(w.drop_first() =~= Seq::<Seq<char>>::empty());
        assert(w.first() == line);
        assert(load_fold(m, w) == load_fold(load_step(m, line), w.drop_first()));
        assert(load_fold(load_step(m, line), w.drop_first()) == load_step(m, line));
        assert(load_fold(m, lines) == m);
    } else {
        assert(w.first() == lines.first());
        assert(w.drop_first() =~= lines.drop_first().push(line));
        let m1 = load_step(m, lines.first());
        lemma_load_fold_snoc(m1, lines.drop_first(), line);
        assert(load_fold(m, w) == load_fold(m1, w.drop_first()));
        assert(load_fold(m1, lines.drop_first().push(line)) == load_step(
            load_fold(m1, lines.drop_first()),
            line,
        ));
        assert(load_fold(m, lines) == load_fold(m1, lines.drop_first()));
    }
}

/// The body of a record's line, before the line delimiter.
pub open spec fn line_body(u: Seq<char>, h: Seq<char>) -> Seq<char> {
    u + seq![':'] + h
}

/// The text a record list serializes to: one `username:hash` line per
/// record, each ended by the line delimiter.
pub open spec fn spec_render(rs: Seq<(Seq<char>, Seq<char>)>) -> Seq<char>
    decreases rs.len(),
{
    if rs.len() == 0 {
        Seq::empty()
    } else {
        line_body(rs.first().0, rs.first().1) + seq!['\n'] + spec_render(rs.drop_first())
    }
}

/// Rendering one more record at the end appends its line.
proof fn lemma_render_snoc(rs: Seq<(Seq<char>, Seq<char>)>, p: (Seq<char>, Seq<char>))
    ensures
        spec_render(rs.push(p)) == spec_render(rs) + line_body(p.0, p.1) + seq!['\n'],
    decreases rs.len(),
{
    let w = rs.push(p);
    assert(w.len() > 0);
    if rs.len() == 0 {
        assert(w.drop_first() =~= Seq::<(Seq<char>, Seq<char>)>::empty());
        assert(w.first() == p);
        assert(spec_render(w) == line_body(p.0, p.1) + seq!['\n'] + spec_render(w.drop_first()));
        assert(spec_render(w.drop_first()) == Seq::<char>::empty());
        assert(spec_render(rs) == Seq::<char>::empty());
        assert(spec_render(w) =~= spec_render(rs) + line_body(p.0, p.1) + seq!['\n']);
    } else {
        assert(w.first() == rs.first());
        assert(w.drop_first() =~= rs.drop_first().push(p));
        lemma_render_snoc(rs.drop_first(), p);
        assert(spec_render(w) == line_body(w.first().0, w.first().1) + seq!['\n'] + spec_render(
            w.drop_first(),
        ));
        assert(spec_render(w.drop_first()) == spec_render(rs.drop_first()) + line_body(p.0, p.1)
            + seq!['\n']);
        assert(spec_render(rs) == line_body(rs.first().0, rs.first().1) + seq!['\n'] + spec_render(
            rs.drop_first(),
        ));
        assert(spec_render(w) =~= spec_render(rs) + line_body(p.0, p.1) + seq!['\n']);
    }
}

/// Records the line format can carry back unchanged: usernames free of both
/// delimiters, hashes free of the line delimiter.
pub open spec fn storable(rs: Seq<(Seq<char>, Seq<char>)>) -> bool {
    forall|i: int|
        0 <= i < rs.len() ==> {
            &&& sep_free((#[trigger] rs[i]).0, ':')
            &&& sep_free(rs[i].0, '\n')
            &&& sep_free(rs[i].1, '\n')
        }
}

/// A record's line body parses back to the record.
proof fn lemma_line_record_of_body(u: Seq<char>, h: Seq<char>)
    requires
        sep_free(u, ':'),
    ensures
        line_record(line_body(u, h)) == Some((u, h)),
{
    let s = line_body(u, h);
    assert(s[u.len() as int] == ':');
    assert(s.take(u.len() as int) =~= u);
    lemma_find_idx_first(s, ':', u.len() as int);
    assert(s.skip(u.len() + 1 as int) =~= h);
}

/// With unique keys, a record list's mapping grows by its first record.
proof fn lemma_map_of_cons(rs: Seq<(Seq<char>, Seq<char>)>)
    requires
        rs.len() > 0,
        unique_keys(rs),
    ensures
        map_of(rs) == map_of(rs.drop_first()).insert(rs.first().0, rs.first().1),
    decreases rs.len(),
{
    let p = rs.first();
    let rest = rs.drop_first();
    if rest.len() == 0 {
        assert(rs.drop_last() =~= Seq::<(Seq<char>, Seq<char>)>::empty());
        assert(rs.last() == p);
        assert(map_of(rs) == map_of(rs.drop_last()).insert(p.0, p.1));
        assert(map_of(rs.drop_last()) == Map::<Seq<char>, Seq<char>>::empty());
        assert(map_of(rest) == Map::<Seq<char>, Seq<char>>::empty());
    } else {
        let shrunk = rs.drop_last();
        assert(shrunk.first() == p);
        assert(shrunk.drop_first() =~= rest.drop_last());
        assert(unique_keys(shrunk)) by {
            assert forall|a: int, b: int| 0 <= a < b < shrunk.len() implies (#[trigger] shrunk[a]).0
                != (#[trigger] shrunk[b]).0 by {
                assert(shrunk[a] == rs[a] && shrunk[b] == rs[b]);
            }
        }
        lemma_map_of_cons(shrunk);
        assert(rs.last() == rest.last());
        assert(p.0 != rs.last().0) by {
            assert(rs[0].0 != rs[rs.len() - 1].0);
        }
        assert(map_of(rs) == map_of(shrunk).insert(rs.last().0, rs.last().1));
        assert(map_of(shrunk) == map_of(rest.drop_last()).insert(p.0, p.1));
        assert(map_of(rest.drop_last()).insert(p.0, p.1).insert(rs.last().0, rs.last().1)
            =~= map_of(rest.drop_last()).insert(rs.last().0, rs.last().1).insert(p.0, p.1));
        assert(map_of(rest) == map_of(rest.drop_last()).insert(rest.last().0, rest.last().1));
        assert(map_of(rs) == map_of(rest).insert(p.0, p.1));
    }
}

/// Loading what a record list renders adds exactly its records to the
/// accumulator.
proof fn lemma_load_of_render(m: Map<Seq<char>, Seq<char>>, rs: Seq<(Seq<char>, Seq<char>)>)
    requires
        unique_keys(rs),
        storable(rs),
        forall|i: int| 0 <= i < rs.len() ==> !m.contains_key((#[trigger] rs[i]).0),
    ensures
        load_fold(m, spec_split(spec_render(rs), '\n')) == m.union_prefer_right(map_of(rs)),
    decreases rs.len(),
{
    if rs.len() == 0 {
        lemma_split_whole(Seq::empty(), '\n');
        assert(spec_render(rs) == Seq::<char>::empty());
        assert(spec_split(spec_render(rs), '\n') == seq![Seq::<char>::empty()]);
        let lines = seq![Seq::<char>::empty()];
        assert(lines.drop_first() =~= Seq::<Seq<char>>::empty());
        assert(line_record(Seq::<char>::empty()) is None);
        assert(lines.first() == Seq::<char>::empty());
        assert(load_step(m, lines.first()) == m);
        assert(load_fold(m, lines) == load_fold(m, lines.drop_first()));
        assert(load_fold(m, lines.drop_first()) == m);
        assert(m.union_prefer_right(map_of(rs)) =~= m);
    } else {
        let p = rs.first();
        let rest = rs.drop_first();
        let body = line_body(p.0, p.1);
        assert(sep_free(p.0, ':') && sep_free(p.0, '\n') && sep_free(p.1, '\n')) by {
            assert(rs[0] == p);
        }
        assert(sep_free(body, '\n')) by {
            assert forall|i: int| 0 <= i < body.len() implies body[i] != '\n' by {
                if i < p.0.len() {
                    assert(body[i] == p.0[i]);
                } else if i > p.0.len() {
                    assert(body[i] == p.1[i - p.0.len() - 1]);
                }
            }
        }
        assert(spec_render(rs) == body + seq!['\n'] + spec_render(rest));
        lemma_split_concat(body, spec_render(rest), '\n');
        let lines = seq![body] + spec_split(spec_render(rest), '\n');
        assert(spec_split(spec_render(rs), '\n') == lines);
        assert(lines.first() == body);
        assert(lines.drop_first() =~= spec_split(spec_render(rest), '\n'));
        lemma_line_record_of_body(p.0, p.1);
        assert(!m.contains_key(p.0)) by {
            assert(rs[0] == p);
        }
        let m1 = m.insert(p.0, p.1);
        assert(load_step(m, body) == m1);
        assert(unique_keys(rest) && storable(rest)) by {
            assert forall|a: int, b: int| 0 <= a < b < rest.len() implies (#[trigger] rest[a]).0
                != (#[trigger] rest[b]).0 by {
                assert(rest[a] == rs[a + 1] && rest[b] == rs[b + 1]);
            }
            assert forall|i: int| 0 <= i < rest.len() implies {
                &&& sep_free((#[trigger] rest[i]).0, ':')
                &&& sep_free(rest[i].0, '\n')
                &&& sep_free(rest[i].1, '\n')
            } by {
                assert(rest[i] == rs[i + 1]);
            }
        }
        assert(forall|i: int| 0 <= i < rest.len() ==> !m1.contains_key((#[trigger] rest[i]).0))
            by {
            assert forall|i: int| 0 <= i < rest.len() implies !m1.contains_key(
                (#[trigger] rest[i]).0,
            ) by {
                assert(rest[i] == rs[i + 1]);
                assert(rs[i + 1].0 != rs[0].0);
            }
        }
        lemma_load_of_render(m1, rest);
        lemma_map_of_cons(rs);
        lemma_map_of_contains(rest, p.0);
        assert(!map_of(rest).contains_key(p.0)) by {
            if map_of(rest).contains_key(p.0) {
                let i = choose|i: int| 0 <= i < rest.len() && (#[trigger] rest[i]).0 == p.0;
                assert(rest[i] == rs[i + 1]);
                assert(rs[i + 1].0 != rs[0].0);
            }
        }
        assert(m1.union_prefer_right(map_of(rest)) =~= m.union_prefer_right(
            map_of(rest).insert(p.0, p.1),
        ));
        assert(load_fold(m, lines) == load_fold(m1, lines.drop_first()));
        assert(load_fold(m1, spec_split(spec_render(rest), '\n')) == m1.union_prefer_right(
            map_of(rest),
        ));
        assert(load_fold(m, spec_split(spec_render(rs), '\n')) == m.union_prefer_right(map_of(rs)));
    }
}

/// Writing a store's records and loading the text back yields the same
/// mapping, for records the line format can carry.
pub proof fn lemma_store_round_trip(rs: Seq<(Seq<char>, Seq<char>)>)
    requires
        unique_keys(rs),
        storable(rs),
    ensures
        spec_load(spec_render(rs)) == map_of(rs),
{
    lemma_load_of_render(Map::empty(), rs);
    assert(Map::<Seq<char>, Seq<char>>::empty().union_prefer_right(map_of(rs)) =~= map_of(rs));
}

/// A key is in a folded mapping exactly when it was in the accumulator or
/// some line carries it.
proof fn lemma_load_fold_contains(m: Map<Seq<char>, Seq<char>>, lines: Seq<Seq<char>>, u: Seq<char>)
    ensures
        load_fold(m, lines).contains_key(u) <==> (m.contains_key(u) || exists|j: int|
            0 <= j < lines.len() && (line_record(#[trigger] lines[j]) matches Some(r) && r.0 == u)),
    decreases lines.len(),
{
    if lines.len() > 0 {
        let m1 = load_step(m, lines.first());
        lemma_load_fold_contains(m1, lines.drop_first(), u);
        if m1.contains_key(u) && !m.contains_key(u) {
            assert(line_record(lines[0]) matches Some(r) && r.0 == u);
        }
        if exists|j: int|
            0 <= j < lines.len() && (line_record(#[trigger] lines[j]) matches Some(r) && r.0
                == u) {
            let j = choose|j: int|
                0 <= j < lines.len() && (line_record(#[trigger] lines[j]) matches Some(r) && r.0
                    == u);
            if j > 0 {
                assert(lines.drop_first()[j - 1] == lines[j]);
                assert(load_fold(m1, lines.drop_first()).contains_key(u));
            }
        }
        if load_fold(m1, lines.drop_first()).contains_key(u) && !m1.contains_key(u) {
            let j = choose|j: int|
                0 <= j < lines.drop_first().len() && (line_record(
                    #[trigger] lines.drop_first()[j],
                ) matches Some(r) && r.0 == u);
            assert(lines[j + 1] == lines.drop_first()[j]);
        }
    }
}

/// A key already in the accumulator keeps its value through the fold.
proof fn lemma_load_fold_keeps(m: Map<Seq<char>, Seq<char>>, lines: Seq<Seq<char>>, u: Seq<char>)
    requires
        m.contains_key(u),
    ensures
        load_fold(m, lines).contains_key(u),
        load_fold(m, lines)[u] == m[u],
    decreases lines.len(),
{
    if lines.len() > 0 {
        lemma_load_fold_keeps(load_step(m, lines.first()), lines.drop_first(), u);
    }
}

/// Of several lines carrying the same username, the first wins: the folded
/// mapping holds the hash of the earliest line whose record carries it.
proof fn lemma_load_fold_first(
    m: Map<Seq<char>, Seq<char>>,
    lines: Seq<Seq<char>>,
    i: int,
    u: Seq<char>,
    h: Seq<char>,
)
    requires
        !m.contains_key(u),
        0 <= i < lines.len(),
        line_record(lines[i]) == Some((u, h)),
        forall|j: int|
            0 <= j < i ==> !(line_record(#[trigger] lines[j]) matches Some(r) && r.0 == u),
    ensures
        load_fold(m, lines).contains_key(u),
        load_fold(m, lines)[u] == h,
    decreases i,
{
    let m1 = load_step(m, lines.first());
    if i == 0 {
        assert(m1 == m.insert(u, h));
        lemma_load_fold_keeps(m1, lines.drop_first(), u);
    } else {
        assert(!(line_record(lines[0]) matches Some(r) && r.0 == u));
        assert(!m1.contains_key(u));
        assert(lines.drop_first()[i - 1] == lines[i]);
        assert forall|j: int|
            0 <= j < i - 1 implies !(line_record(#[trigger] lines.drop_first()[j]) matches Some(r)
            && r.0 == u) by {
            assert(lines.drop_first()[j] == lines[j + 1]);
        }
        lemma_load_fold_first(m1, lines.drop_first(), i - 1, u, h);
    }
}

/// Dedup on load: when line `i` of a backing file carries a username that
/// no earlier line carries, the loaded store holds that line's hash for it,
/// whatever later lines say.
pub proof fn lemma_load_first_wins(text: Seq<char>, i: int, u: Seq<char>, h: Seq<char>)
    requires
        0 <= i < spec_split(text, '\n').len(),
        line_record(spec_split(text, '\n')[i]) == Some((u, h)),
        forall|j: int|
            0 <= j < i ==> !(line_record(#[trigger] spec_split(text, '\n')[j]) matches Some(r)
                && r.0 == u),
    ensures
        spec_load(text).contains_key(u),
        spec_load(text)[u] == h,
{
    lemma_load_fold_first(Map::empty(), spec_split(text, '\n'), i, u, h);
}

/// Whether a submitted password matches a stored entry: the entry decodes,
/// carries this library's tag, its cost fits the iteration counter, the
/// inputs are within the derivation's machine limits, and the re-derived
/// digest equals the stored one byte for byte.  A malformed entry fails
/// closed.
pub open spec fn spec_check_password(entry: Seq<char>, pw: Seq<u8>) -> bool {
    match spec_decode(entry) {
        Some((tag, cost, salt, digest)) => {
            &&& tag == HASH_VERSION@
            &&& cost < 64
            &&& pw.len() <= MAX_HASH_INPUT
            &&& salt.len() <= MAX_HASH_INPUT
            &&& spec_derive(pw, salt, cost as nat) == digest
        },
        None => false,
    }
}

/// Whether a username and password authenticate against a mapping: the
/// username is registered and its stored entry checks out.
pub open spec fn spec_authenticate(
    m: Map<Seq<char>, Seq<char>>,
    u: Seq<char>,
    pw: Seq<u8>,
) -> bool {
    m.contains_key(u) && spec_check_password(m[u], pw)
}

/// An entry freshly derived from a password checks out against exactly the
/// passwords that re-derive its digest — in particular against that
/// password itself.
pub proof fn lemma_derived_entry_checks(
    entry: Seq<char>,
    pw: Seq<u8>,
    q: Seq<u8>,
    sb: Seq<u8>,
    cost: u64,
)
    requires
        spec_decode(entry) == Some((HASH_VERSION@, cost, sb, spec_derive(pw, sb, cost as nat))),
        cost < 64,
        sb.len() <= MAX_HASH_INPUT,
    ensures
        pw.len() <= MAX_HASH_INPUT ==> spec_check_password(entry, pw),
        q.len() <= MAX_HASH_INPUT ==> (spec_check_password(entry, q) <==> spec_derive(
            q,
            sb,
            cost as nat,
        ) == spec_derive(pw, sb, cost as nat)),
{
}

/// Byte-for-byte equality of two byte strings.
fn bytes_eq(a: &[u8], b: &[u8]) -> (r: bool)
    ensures
        r == (a@ == b@),
{
    if a.len() != b.len() {
        return false;
    }
    let n = a.len();
    let mut i: usize = 0;
    while i < n
        invariant
            n == a@.len() == b@.len(),
            0 <= i <= n,
            forall|j: int| 0 <= j < i ==> a@[j] == b@[j],
        decreases n - i,
    {
        if a[i] != b[i] {
            return false;
        }
        i += 1;
    }
    proof {
        assert(a@ =~= b@);
    }
    true
}

/// The store: the records and the backing file path.
pub struct UserCredentials {
    creds: Vec<(String, String)>,
    storage_location: String,
}

impl View for UserCredentials {
    type V = Map<Seq<char>, Seq<char>>;

    closed spec fn view(&self) -> Map<Seq<char>, Seq<char>> {
        map_of(self.records())
    }
}

impl UserCredentials {
    /// The records as they stand, in order.
    pub closed spec fn records(self) -> Seq<(Seq<char>, Seq<char>)> {
        self.creds@.map_values(|p: (String, String)| (p.0@, p.1@))
    }

    /// The backing file path the store was created with.
    pub closed spec fn spec_path(self) -> Seq<char> {
        self.storage_location@
    }

    /// Usernames are unique; every constructor establishes this and every
    /// method preserves it.
    pub open spec fn wf(self) -> bool {
        unique_keys(self.records())
    }

    /// Creates an empty store bound to a backing file path.  Existing file
    /// contents are taken in by `from_contents`; a missing or unreadable
    /// file simply leaves the store empty.
    pub fn new(filepath: &str) -> (s: Self)
        ensures
            s@ == Map::<Seq<char>, Seq<char>>::empty(),
            s.wf(),
            s.records().len() == 0,
            s.spec_path() == filepath@,
            storable(s.records()),
    {
        let s = UserCredentials { creds: Vec::new(), storage_location: filepath.to_owned() };
        proof {
            assert(s.records() =~= Seq::<(Seq<char>, Seq<char>)>::empty());
            assert(s@ =~= Map::<Seq<char>, Seq<char>>::empty());
        }
        s
    }

    /// Index of the record carrying a username, if any.
    fn find_user(&self, username: &str) -> (r: Option<usize>)
        ensures
            match r {
                Some(i) => i < self.records().len() && self.records()[i as int].0 == username@,
                None => forall|i: int|
                    0 <= i < self.records().len() ==> (#[trigger] self.records()[i]).0
                        != username@,
            },
    {
        let u = username.to_owned();
        let mut i: usize = 0;
        while i < self.creds.len()
            invariant
                u@ == username@,
                0 <= i <= self.creds@.len(),
                self.records().len() == self.creds@.len(),
                forall|j: int| 0 <= j < i ==> (#[trigger] self.records()[j]).0 != username@,
            decreases self.creds@.len() - i,
        {
            let p = &self.creds[i];
            if p.0 == u {
                proof {
                    assert(self.records()[i as int] == (self.creds@[i as int].0@, self.creds@[
                    i as int].1@));
                }
                return Some(i);
            }
            proof {
                assert(self.records()[i as int] == (self.creds@[i as int].0@, self.creds@[
                i as int].1@));
            }
            i += 1;
        }
        None
    }

    /// Whether a username is registered.
    pub fn contains(&self, username: &str) -> (r: bool)
        ensures
            r == self@.contains_key(username@),
    {
        let r = self.find_user(username);
        proof {
            lemma_map_of_contains(self.records(), username@);
        }
        match r {
            Some(_) => true,
            None => false,
        }
    }

    /// The stored encoded hash of a username, if registered.
    pub fn get(&self, username: &str) -> (r: Option<&String>)
        requires
            self.wf(),
        ensures
            match r {
                Some(h) => self@.contains_key(username@) && h@ == self@[username@],
                None => !self@.contains_key(username@),
            },
    {
        match self.find_user(username) {
            Some(i) => {
                proof {
                    lemma_map_of_index(self.records(), i as int);
                    assert(self.records()[i as int] == (self.creds@[i as int].0@, self.creds@[
                    i as int].1@));
                }
                Some(&self.creds[i].1)
            },
            None => {
                proof {
                    lemma_map_of_contains(self.records(), username@);
                }
                None
            },
        }
    }

    /// All registered usernames, in the store's record order.
    pub fn list_users(&self) -> (r: Vec<String>)
        ensures
            r@.len() == self.records().len(),
            forall|i: int| 0 <= i < r@.len() ==> (#[trigger] r@[i])@ == self.records()[i].0,
            forall|k: Seq<char>|
                #[trigger] self@.contains_key(k) <==> exists|i: int|
                    0 <= i < r@.len() && (#[trigger] r@[i])@ == k,
    {
        let mut r: Vec<String> = Vec::new();
        let mut i: usize = 0;
        while i < self.creds.len()
            invariant
                0 <= i <= self.creds@.len(),
                self.records().len() == self.creds@.len(),
                r@.len() == i,
                forall|j: int| 0 <= j < i ==> (#[trigger] r@[j])@ == self.records()[j].0,
            decreases self.creds@.len() - i,
        {
            let p = &self.creds[i];
            r.push(p.0.clone());
            proof {
                assert(self.records()[i as int] == (self.creds@[i as int].0@, self.creds@[
                i as int].1@));
            }
            i += 1;
        }
        proof {
            assert forall|k: Seq<char>| #[trigger] self@.contains_key(k) <==> exists|i: int|
                0 <= i < r@.len() && (#[trigger] r@[i])@ == k by {
                lemma_map_of_contains(self.records(), k);
                if self@.contains_key(k) {
                    let i = choose|i: int| 0 <= i < self.records().len() && (
                    #[trigger] self.records()[i]).0 == k;
                    assert((r@[i])@ == k);
                }
                if exists|i: int| 0 <= i < r@.len() && (#[trigger] r@[i])@ == k {
                    let i = choose|i: int| 0 <= i < r@.len() && (#[trigger] r@[i])@ == k;
                    assert((self.records()[i]).0 == k);
                }
            }
        }
        r
    }

    /// Registers a username or replaces its hash.  The in-memory map is
    /// authoritative; persisting it is the caller's step through
    /// `to_file_contents`.
    pub fn set(&mut self, username: &str, hashword: &str)
        requires
            old(self).wf(),
        ensures
            final(self)@ == old(self)@.insert(username@, hashword@),
            final(self).wf(),
            final(self).spec_path() == old(self).spec_path(),
            storable(old(self).records()) && sep_free(username@, ':') && sep_free(username@, '\n')
                && sep_free(hashword@, '\n') ==> storable(final(self).records()),
    {
        let ghost oldrecs = self.records();
        match self.find_user(username) {
            Some(i) => {
                let u = username.to_owned();
                let h = hashword.to_owned();
                self.creds[i] = (u, h);
                proof {
                    assert(self.records() =~= oldrecs.update(i as int, (username@, hashword@)));
                    lemma_map_of_update(oldrecs, i as int, hashword@);
                    if storable(oldrecs) && sep_free(username@, ':') && sep_free(username@, '\n')
                        && sep_free(hashword@, '\n') {
                        assert forall|t: int| 0 <= t < self.records().len() implies {
                            &&& sep_free((#[trigger] self.records()[t]).0, ':')
                            &&& sep_free(self.records()[t].0, '\n')
                            &&& sep_free(self.records()[t].1, '\n')
                        } by {
                            if t != i {
                                assert(self.records()[t] == oldrecs[t]);
                            }
                        }
                    }
                }
            },
            None => {
                self.creds.push((username.to_owned(), hashword.to_owned()));
                proof {
                    assert(self.records() =~= oldrecs.push((username@, hashword@)));
                    assert(self.records().drop_last() =~= oldrecs);
                    assert forall|a: int, b: int|
                        0 <= a < b < self.records().len() implies (#[trigger] self.records()[a]).0
                        != (#[trigger] self.records()[b]).0 by {
                        if b < self.records().len() - 1 {
                            assert(oldrecs[a] == self.records()[a] && oldrecs[b] == self.records()[
                            b]);
                        } else {
                            assert(oldrecs[a] == self.records()[a]);
                        }
                    }
                    if storable(oldrecs) && sep_free(username@, ':') && sep_free(username@, '\n')
                        && sep_free(hashword@, '\n') {
                        assert forall|t: int| 0 <= t < self.records().len() implies {
                            &&& sep_free((#[trigger] self.records()[t]).0, ':')
                            &&& sep_free(self.records()[t].0, '\n')
                            &&& sep_free(self.records()[t].1, '\n')
                        } by {
                            if t < self.records().len() - 1 {
                                assert(self.records()[t] == oldrecs[t]);
                            }
                        }
                    }
                }
            },
        }
    }

    /// Deletes a username's record; absent usernames are a no-op, not an
    /// error.  Persisting is the caller's step through `to_file_contents`.
    pub fn remove(&mut self, username: &str)
        requires
            old(self).wf(),
        ensures
            final(self)@ == old(self)@.remove(username@),
            final(self).wf(),
            final(self).spec_path() == old(self).spec_path(),
            storable(old(self).records()) ==> storable(final(self).records()),
    {
        let ghost oldrecs = self.records();
        match self.find_user(username) {
            Some(i) => {
                self.creds.remove(i);
                proof {
                    assert(self.records() =~= oldrecs.remove(i as int));
                    lemma_map_of_remove(oldrecs, i as int);
                    if storable(oldrecs) {
                        assert forall|t: int| 0 <= t < self.records().len() implies {
                            &&& sep_free((#[trigger] self.records()[t]).0, ':')
                            &&& sep_free(self.records()[t].0, '\n')
                            &&& sep_free(self.records()[t].1, '\n')
                        } by {
                            if t < i {
                                assert(self.records()[t] == oldrecs[t]);
                            } else {
                                assert(self.records()[t] == oldrecs[t + 1]);
                            }
                        }
                    }
                }
            },
            None => {
                proof {
                    lemma_map_of_contains(oldrecs, username@);
                    assert(map_of(oldrecs).remove(username@) =~= map_of(oldrecs));
                }
            },
        }
    }

    /// Builds a store from the backing file's text: one record per line,
    /// `username:hash`, split at the first `:`.  A line without the
    /// delimiter is skipped, on duplicate usernames the first line wins,
    /// and loading never fails.
    pub fn from_contents(filepath: &str, contents: &str) -> (s: Self)
        ensures
            s@ == spec_load(contents@),
            s.wf(),
            s.spec_path() == filepath@,
            storable(s.records()),
    {
        let mut s = UserCredentials::new(filepath);
        let lines = split_str(contents, '\n');
        let ghost speclines = spec_split(contents@, '\n');
        let mut i: usize = 0;
        proof {
            assert(speclines.take(0) =~= Seq::<Seq<char>>::empty());
            lemma_split_parts_sep_free(contents@, '\n');
        }
        while i < lines.len()
            invariant
                speclines == spec_split(contents@, '\n'),
                lines@.map_values(|t: String| t@) == speclines,
                0 <= i <= lines@.len(),
                s.wf(),
                s@ == load_fold(Map::empty(), speclines.take(i as int)),
                s.spec_path() == filepath@,
                storable(s.records()),
            decreases lines@.len() - i,
        {
            let ghost prior = s@;
            let line = &lines[i];
            proof {
                assert(line@ == speclines[i as int]);
            }
            match find_char(line.as_str(), ':') {
                Some(f) => {
                    proof {
                        lemma_find_idx(line@, ':');
                    }
                    let n = line.as_str().unicode_len();
                    assert(f < n);
                    let u = line.as_str().substring_char(0, f);
                    let h = line.as_str().substring_char(f + 1, n);
                    proof {
                        assert(u@ =~= line@.take(f as int));
                        assert(h@ =~= line@.skip(f + 1));
                        lemma_split_parts_sep_free(contents@, '\n');
                        assert(sep_free(line@, '\n'));
                        assert(sep_free(u@, ':'));
                        assert forall|j: int| 0 <= j < u@.len() implies u@[j] != '\n' by {
                            assert(u@[j] == line@[j]);
                        }
                        assert forall|j: int| 0 <= j < h@.len() implies h@[j] != '\n' by {
                            assert(h@[j] == line@[f + 1 + j]);
                        }
                    }
                    if !s.contains(u) {
                        s.set(u, h);
                    }
                },
                None => {},
            }
            i += 1;
            proof {
                assert(speclines.take(i as int).drop_last() =~= speclines.take(i - 1));
                assert(speclines.take(i as int) =~= speclines.take(i - 1).push(
                    speclines[i - 1],
                ));
                lemma_load_fold_snoc(Map::empty(), speclines.take(i - 1), speclines[i - 1]);
                assert(s@ == load_step(prior, speclines[i - 1]));
            }
        }
        proof {
            assert(speclines.take(lines@.len() as int) =~= speclines);
        }
        s
    }

    /// Serializes the store for its backing file: one `username:hash` line
    /// per record, in record order.  For records the line format can carry,
    /// loading the text back yields the same mapping.
    pub fn to_file_contents(&self) -> (r: String)
        ensures
            r@ == spec_render(self.records()),
            self.wf() && storable(self.records()) ==> spec_load(r@) == self@,
    {
        proof {
            if self.wf() && storable(self.records()) {
                lemma_store_round_trip(self.records());
            }
        }
        let mut out = String::new();
        let mut i: usize = 0;
        proof {
            reveal_strlit(":");
            reveal_strlit("\n");
            assert(self.records().take(0) =~= Seq::<(Seq<char>, Seq<char>)>::empty());
        }
        while i < self.creds.len()
            invariant
                0 <= i <= self.creds@.len(),
                self.records().len() == self.creds@.len(),
                out@ == spec_render(self.records().take(i as int)),
            decreases self.creds@.len() - i,
        {
            proof {
                reveal_strlit(":");
                reveal_strlit("\n");
            }
            let p = &self.creds[i];
            out.append(p.0.as_str());
            out.append(":");
            out.append(p.1.as_str());
            out.append("\n");
            proof {
                assert(self.records()[i as int] == (self.creds@[i as int].0@, self.creds@[
                i as int].1@));
                lemma_render_snoc(self.records().take(i as int), self.records()[i as int]);
                assert(self.records().take(i + 1) =~= self.records().take(i as int).push(
                    self.records()[i as int],
                ));
                assert(out@ =~= spec_render(self.records().take(i + 1)));
            }
            i += 1;
        }
        proof {
            assert(self.records().take(self.creds@.len() as int) =~= self.records());
        }
        out
    }

    /// Authenticates a username and password against the store: false when
    /// the username is absent, when its stored entry is malformed in any
    /// way, or when the re-derived digest differs; true only on an exact
    /// match.  Never panics, whatever the stored text holds.
    pub fn authenticate(&mut self, username: &str, password: &str) -> (r: bool)
        requires
            old(self).wf(),
        ensures
            r == spec_authenticate(old(self)@, username@, password.spec_bytes()),
            *final(self) == *old(self),
    {
        let entry = match self.get(username) {
            Some(e) => e.clone(),
            None => {
                return false;
            },
        };
        let parts = match decode_hash(entry.as_str()) {
            Some(p) => p,
            None => {
                return false;
            },
        };
        let expected_tag = String::from_str(crate::HASH_VERSION);
        if !(parts.tag == expected_tag) {
            return false;
        }
        if parts.cost >= 64 {
            return false;
        }
        let pwb = password.as_bytes();
        if (pwb.len() as u64) > MAX_HASH_INPUT {
            return false;
        }
        if (parts.salt.len() as u64) > MAX_HASH_INPUT {
            return false;
        }
        let digest = crate::hashing::derive(pwb, parts.salt.as_slice(), parts.cost);
        bytes_eq(digest.as_slice(), parts.digest.as_slice())
    }

    /// The backing file path, for the caller that persists the store.
    pub fn storage_location(&self) -> (r: &String)
        ensures
            r@ == self.spec_path(),
    {
        &self.storage_location
    }
}

} // verus!
