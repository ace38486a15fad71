use crate::scanner::probe::ProbeResult;
use crate::scanner::range::{dotted, ipv4_text};
use crate::style::{accent, info, look, paint, painted, Look};
use crate::text::{chars_of, dec, dec_int, decimal_i64, decimal_u128, push_chars, push_str, string_of};
use vstd::prelude::*;

verus! {

// ── Ordering results ─────────────────────────────────

/// The results whose latency is `key`, in order.
pub open spec fn with_latency(s: Seq<ProbeResult>, key: u128) -> Seq<ProbeResult>
    decreases s.len(),
{
    if s.len() == 0 {
        Seq::<ProbeResult>::empty()
    } else if s.last().latency_nanos == key {
        with_latency(s.drop_last(), key).push(s.last())
    } else {
        with_latency(s.drop_last(), key)
    }
}

/// Whether the results are ordered by latency, fastest first.
pub open spec fn by_latency(s: Seq<ProbeResult>) -> bool {
    forall|i: int, j: int|
        0 <= i <= j < s.len() ==> #[trigger] s[i].latency_nanos <= #[trigger] s[j].latency_nanos
}

proof fn lemma_with_latency_concat(a: Seq<ProbeResult>, b: Seq<ProbeResult>, key: u128)
    ensures
        with_latency(a + b, key) == with_latency(a, key) + with_latency(b, key),
    decreases b.len(),
{
    if b.len() == 0 {
        assert(a + b =~= a);
        assert(with_latency(a, key) + Seq::<ProbeResult>::empty() =~= with_latency(a, key));
    } else {
        lemma_with_latency_concat(a, b.drop_last(), key);
        assert((a + b).drop_last() =~= a + b.drop_last());
        assert((a + b).last() == b.last());
        if b.last().latency_nanos == key {
            assert(with_latency(a, key) + with_latency(b.drop_last(), key).push(b.last()) =~= (
            with_latency(a, key) + with_latency(b.drop_last(), key)).push(b.last()));
        }
    }
}

proof fn lemma_with_latency_none(s: Seq<ProbeResult>, key: u128)
    requires
        forall|i: int| 0 <= i < s.len() ==> #[trigger] s[i].latency_nanos != key,
    ensures
        with_latency(s, key) == Seq::<ProbeResult>::empty(),
    decreases s.len(),
{
    if s.len() > 0 {
        lemma_with_latency_none(s.drop_last(), key);
    }
}

proof fn lemma_insert_keeps_order(out: Seq<ProbeResult>, pos: int, r: ProbeResult, key: u128)
    requires
        0 <= pos <= out.len(),
        forall|i: int| 0 <= i < pos ==> #[trigger] out[i].latency_nanos <= r.latency_nanos,
        forall|i: int| pos <= i < out.len() ==> #[trigger] out[i].latency_nanos > r.latency_nanos,
    ensures
        with_latency(out.insert(pos, r), key) == if r.latency_nanos == key {
            with_latency(out, key).push(r)
        } else {
            with_latency(out, key)
        },
{
    let a = out.take(pos);
    let b = out.skip(pos);
    assert(out =~= a + b);
    assert(out.insert(pos, r) =~= a + seq![r] + b);
    lemma_with_latency_concat(a, b, key);
    lemma_with_latency_concat(a + seq![r], b, key);
    lemma_with_latency_concat(a, seq![r], key);
    assert(seq![r].drop_last() =~= Seq::<ProbeResult>::empty());
    assert(seq![r].last() == r);
    assert(with_latency(Seq::<ProbeResult>::empty(), key) == Seq::<ProbeResult>::empty());
    if r.latency_nanos == key {
        assert(with_latency(seq![r], key) =~= seq![r]);
        assert forall|i: int| 0 <= i < b.len() implies #[trigger] b[i].latency_nanos != key by {
            assert(b[i] == out[pos + i]);
        }
        lemma_with_latency_none(b, key);
        assert(with_latency(a, key) + seq![r] + Seq::<ProbeResult>::empty() =~= with_latency(
            a,
            key,
        ).push(r));
        assert(with_latency(a, key) + Seq::<ProbeResult>::empty() =~= with_latency(a, key));
    } else {
        assert(with_latency(seq![r], key) =~= Seq::<ProbeResult>::empty());
        assert(with_latency(a, key) + Seq::<ProbeResult>::empty() =~= with_latency(a, key));
    }
}

proof fn lemma_count_in_group(s: Seq<ProbeResult>, e: ProbeResult)
    ensures
        s.to_multiset().count(e) == with_latency(s, e.latency_nanos).to_multiset().count(e),
    decreases s.len(),
{
    broadcast use vstd::multiset::group_multiset_axioms;

    if s.len() == 0 {
        let g = with_latency(s, e.latency_nanos);
        s.to_multiset_ensures();
        g.to_multiset_ensures();
        vstd::multiset::lemma_multiset_empty_len(s.to_multiset());
        vstd::multiset::lemma_multiset_empty_len(g.to_multiset());
    } else {
        let p = s.drop_last();
        let x = s.last();
        lemma_count_in_group(p, e);
        assert(s =~= p.push(x));
        vstd::seq_lib::to_multiset_build(p, x);
        if x.latency_nanos == e.latency_nanos {
            vstd::seq_lib::to_multiset_build(with_latency(p, e.latency_nanos), x);
        }
    }
}

/// Two lists whose results of each latency agree, in order, hold the same
/// results.
pub proof fn lemma_groups_same_results(a: Seq<ProbeResult>, b: Seq<ProbeResult>)
    requires
        forall|key: u128| #[trigger] with_latency(a, key) == with_latency(b, key),
    ensures
        a.to_multiset() == b.to_multiset(),
{
    assert forall|e: ProbeResult| a.to_multiset().count(e) == b.to_multiset().count(e) by {
        lemma_count_in_group(a, e);
        lemma_count_in_group(b, e);
        assert(with_latency(a, e.latency_nanos) == with_latency(b, e.latency_nanos));
    }
    assert(a.to_multiset() =~= b.to_multiset());
}

/// Order results by latency, fastest first; results of equal latency keep
/// their order (a stable sort).
pub fn sort_by_latency(results: Vec<ProbeResult>) -> (res: Vec<ProbeResult>)
    ensures
        by_latency(res@),
        res@.len() == results@.len(),
        res@.to_multiset() == results@.to_multiset(),
        forall|key: u128| #[trigger] with_latency(res@, key) == with_latency(results@, key),
{
    let ghost orig = results@;
    let mut rest = results;
    let mut out: Vec<ProbeResult> = Vec::new();
    let ghost mut i: int = 0;
    proof {
        assert(orig.skip(0) =~= orig);
        assert forall|key: u128| #[trigger] with_latency(out@, key) == with_latency(orig.take(0), key) by {
            assert(orig.take(0) =~= Seq::<ProbeResult>::empty());
        }
    }
    while rest.len() > 0
        invariant
            0 <= i <= orig.len(),
            rest@ == orig.skip(i),
            out@.len() == i,
            by_latency(out@),
            forall|key: u128| #[trigger] with_latency(out@, key) == with_latency(orig.take(i), key),
        decreases rest@.len(),
    {
        let r = rest.remove(0);
        assert(r == orig[i]);
        let mut pos: usize = 0;
        while pos < out.len() && out[pos].latency_nanos <= r.latency_nanos
            invariant
                pos <= out@.len(),
                forall|j: int| 0 <= j < pos ==> #[trigger] out@[j].latency_nanos <= r.latency_nanos,
            decreases out@.len() - pos,
        {
            pos += 1;
        }
        proof {
            assert forall|j: int| pos <= j < out@.len() implies #[trigger] out@[j].latency_nanos
                > r.latency_nanos by {
                assert(out@[pos as int].latency_nanos > r.latency_nanos);
                assert(out@[pos as int].latency_nanos <= out@[j].latency_nanos);
            }
        }
        let ghost before = out@;
        out.insert(pos, r);
        proof {
            assert forall|key: u128| #[trigger] with_latency(out@, key) == with_latency(
                orig.take(i + 1),
                key,
            ) by {
                lemma_insert_keeps_order(before, pos as int, r, key);
                assert(orig.take(i + 1).drop_last() =~= orig.take(i));
                assert(orig.take(i + 1).last() == r);
            }
            assert forall|a: int, b: int| 0 <= a <= b < out@.len() implies #[trigger] out@[a].latency_nanos
                <= #[trigger] out@[b].latency_nanos by {
                if a < pos && b > pos {
                    assert(out@[a] == before[a]);
                    assert(out@[b] == before[b - 1]);
                } else if a < pos && b == pos {
                    assert(out@[a] == before[a]);
                } else if a == pos && b > pos {
                    assert(out@[b] == before[b - 1]);
                } else if a > pos {
                    assert(out@[a] == before[a - 1]);
                    assert(out@[b] == before[b - 1]);
                } else if b < pos {
                    assert(out@[a] == before[a]);
                    assert(out@[b] == before[b]);
                }
            }
            assert(rest@ =~= orig.skip(i + 1));
            i = i + 1;
        }
    }
    proof {
        assert(orig.take(i) =~= orig);
        lemma_groups_same_results(out@, orig);
    }
    out
}

// ── Result rows ──────────────────────────────────────

/// The address column of a result: the dotted IPv4 address.
pub open spec fn address_text(r: ProbeResult) -> Seq<char> {
    dotted(r.addr)
}

/// The cells of a result's row: address (accent color), version name (info
/// color), players as `online/max`, and latency in whole milliseconds.
pub open spec fn row_cells_ok(r: ProbeResult, cells: Seq<Seq<char>>) -> bool {
    &&& cells.len() == 4
    &&& painted(look(Some(accent()), seq![]), address_text(r), cells[0])
    &&& painted(look(Some(info()), seq![]), r.status.version.name@, cells[1])
    &&& cells[2] == dec_int(r.status.players.online as int) + seq!['/'] + dec_int(
        r.status.players.max as int,
    )
    &&& cells[3] == dec((r.latency_nanos / 1_000_000) as nat) + seq!['m', 's']
}

/// The table row of one result.
pub fn scan_row(r: &ProbeResult) -> (res: Vec<String>)
    ensures
        row_cells_ok(*r, res@.map_values(|c: String| c@)),
{
    let addr_text = ipv4_text(r.addr);
    let la = Look::fg(accent());
    let li = Look::fg(info());
    proof {
        assert(la.spec() =~= look(Some(accent()), seq![]));
        assert(li.spec() =~= look(Some(info()), seq![]));
    }
    let c0 = paint(addr_text.as_str(), &la);
    let c1 = paint(r.status.version.name.as_str(), &li);
    let mut players = decimal_i64(r.status.players.online as i64);
    players.push('/');
    let max = decimal_i64(r.status.players.max as i64);
    push_chars(&mut players, &max);
    let mut ping = decimal_u128(r.latency_nanos / 1_000_000);
    push_str(&mut ping, "ms");
    proof {
        reveal_strlit("ms");
    }
    let mut row: Vec<String> = Vec::new();
    row.push(c0);
    row.push(c1);
    row.push(string_of(&players));
    row.push(string_of(&ping));
    proof {
        let cells = row@.map_values(|c: String| c@);
        assert(cells[0] == c0@);
        assert(cells[1] == c1@);
        assert(cells[2] =~= dec_int(r.status.players.online as int) + seq!['/'] + dec_int(
            r.status.players.max as int,
        ));
        assert(cells[3] =~= dec((r.latency_nanos / 1_000_000) as nat) + seq!['m', 's']);
    }
    row
}

} // verus!
