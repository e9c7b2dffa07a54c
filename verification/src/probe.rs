//! Port questions: which free port to suggest, and which process listens on a port.
use vstd::prelude::*;
use crate::text::{
    chars_of, concat, decimal_digits, decimal_string, eq_ignore_ascii_case, ends_with, has_suffix,
    lines, lines_of, lower_ascii_seq, parse_u32, parse_u32_spec, views, words, words_of,
};

verus! {

/// How many candidates `find_free_port` tries before giving up.
pub const SEARCH_WIDTH: u16 = 64;

/// The first port above `from` that `is_taken` reports free, trying at most `SEARCH_WIDTH`
/// ports and never going past `u16::MAX`.
///
/// Walks upward rather than picking at random so the suggestion stays recognisable: a user
/// whose app normally answers on 3000 expects to be offered 3001.
pub fn find_free_port<F: Fn(u16) -> bool>(from: u16, is_taken: F) -> (r: Option<u16>)
    requires
        forall|p: u16| call_requires(is_taken, (p,)),
    ensures
        match r {
            Some(port) => {
                &&& from < port <= from + SEARCH_WIDTH
                &&& call_ensures(is_taken, (port,), false)
                &&& forall|p: u16| from < p < port ==> #[trigger] call_ensures(is_taken, (p,), true)
            },
            None => forall|p: u16|
                from < p <= from + SEARCH_WIDTH ==> #[trigger] call_ensures(is_taken, (p,), true),
        },
{
    let mut step: u16 = 1;
    while step <= SEARCH_WIDTH
        invariant
            1 <= step <= SEARCH_WIDTH + 1,
            forall|p: u16| call_requires(is_taken, (p,)),
            forall|p: u16| from < p < from + step ==> #[trigger] call_ensures(is_taken, (p,), true),
        decreases SEARCH_WIDTH + 1 - step,
    {
        match from.checked_add(step) {
            Some(port) => {
                let taken = is_taken(port);
                if !taken {
                    return Some(port);
                }
            },
            None => {
                return None;
            },
        }
        step += 1;
    }
    None
}

/// The pid a netstat row lists, when the row is a listener bound to `port`.
///
/// Rows look like `TCP 0.0.0.0:3000 0.0.0.0:0 LISTENING 12345`. The port is matched on
/// its own, not the address, so `0.0.0.0`, `127.0.0.1` and `[::]` all count.
pub open spec fn row_pid(fields: Seq<Seq<char>>, port: u16) -> Option<u32> {
    if fields.len() >= 5 && lower_ascii_seq(fields[3]) == lower_ascii_seq("LISTENING"@)
        && has_suffix(fields[1], ":"@ + decimal_digits(port as nat)) {
        parse_u32_spec(fields[4])
    } else {
        None
    }
}

/// The pid of the first listening row bound to `port`, among the rows before `n`.
pub open spec fn netstat_pid(rows: Seq<Seq<char>>, port: u16) -> Option<u32>
    decreases rows.len(),
{
    if rows.len() == 0 {
        None
    } else {
        match netstat_pid(rows.drop_last(), port) {
            Some(pid) => Some(pid),
            None => row_pid(words(rows.last()), port),
        }
    }
}

proof fn lemma_netstat_extends(rows: Seq<Seq<char>>, port: u16, k: int)
    requires
        0 <= k <= rows.len(),
        netstat_pid(rows.take(k), port) is Some,
    ensures
        netstat_pid(rows, port) == netstat_pid(rows.take(k), port),
    decreases rows.len() - k,
{
    if k < rows.len() {
        assert(rows.take(k + 1).drop_last() =~= rows.take(k));
        lemma_netstat_extends(rows, port, k + 1);
    } else {
        assert(rows.take(k) =~= rows);
    }
}

/// Finds the pid of the first LISTENING row bound to `port` in `netstat -ano` output.
pub fn parse_netstat(output: &str, port: u16) -> (r: Option<u32>)
    ensures
        r == netstat_pid(lines(output@), port),
{
    let text = chars_of(output);
    let rows = lines_of(text.as_slice());
    let ghost all = views(rows@);
    let colon = vec![':'];
    let suffix = concat(colon.as_slice(), decimal_string(port as u64).as_slice());
    let listening = chars_of("LISTENING");
    assert(colon@ =~= ":"@) by {
        reveal_strlit(":");
    }
    let mut i: usize = 0;
    while i < rows.len()
        invariant
            i <= rows@.len(),
            all == views(rows@),
            all == lines(output@),
            suffix@ == ":"@ + decimal_digits(port as nat),
            listening@ == "LISTENING"@,
            netstat_pid(all.take(i as int), port) is None,
        decreases rows@.len() - i,
    {
        proof {
            assert(all.take(i + 1).drop_last() =~= all.take(i as int));
            assert(all.take(i + 1).last() == rows@[i as int]@);
        }
        let fields = words_of(rows[i].as_slice());
        let ghost ws = views(fields@);
        proof {
            if ws.len() >= 5 {
                assert(ws[1] == fields@[1]@);
                assert(ws[3] == fields@[3]@);
                assert(ws[4] == fields@[4]@);
            }
        }
        if fields.len() >= 5 && eq_ignore_ascii_case(fields[3].as_slice(), listening.as_slice())
            && ends_with(fields[1].as_slice(), suffix.as_slice()) {
            if let Some(pid) = parse_u32(fields[4].as_slice()) {
                proof {
                    assert(row_pid(ws, port) == Some(pid));
                    assert(netstat_pid(all.take(i + 1), port) == Some(pid));
                    lemma_netstat_extends(all, port, i + 1);
                }
                return Some(pid);
            }
        }
        i += 1;
    }
    assert(all.take(rows@.len() as int) =~= all);
    None
}

} // verus!
