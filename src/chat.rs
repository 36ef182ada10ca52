use vstd::prelude::*;

use crate::path::comps_view;
use crate::text::{chars_of, lemma_pieces_nonempty, pieces, push_all, push_range, string_of};

verus! {

/// One message of a chat conversation.
#[derive(Debug)]
pub struct ClaudeMessage {
    pub role: String,
    pub content: String,
}

/// A streamed chat request: the conversation and an optional system prompt.
#[derive(Debug)]
pub struct ClaudeRequest {
    pub messages: Vec<ClaudeMessage>,
    pub system: Option<String>,
}

/// A chat request answered in one piece.
#[derive(Debug)]
pub struct ClaudeSyncRequest {
    pub messages: Vec<ClaudeMessage>,
    pub system: Option<String>,
}

/// `l` without its trailing carriage returns.
pub open spec fn trim_cr_end(l: Seq<char>) -> Seq<char>
    decreases l.len(),
{
    if l.len() > 0 && l.last() == '\r' {
        trim_cr_end(l.drop_last())
    } else {
        l
    }
}

pub open spec fn data_field() -> Seq<char> {
    seq!['d', 'a', 't', 'a', ':', ' ']
}

pub open spec fn done_marker() -> Seq<char> {
    seq!['[', 'D', 'O', 'N', 'E', ']']
}

/// The payload of one event-stream line: what follows "data: " on a data
/// line, trailing carriage returns dropped; none for other lines and for the
/// "[DONE]" end marker.
pub open spec fn sse_payload(line: Seq<char>) -> Option<Seq<char>> {
    let l = trim_cr_end(line);
    if l.len() >= 6 && l.take(6) == data_field() && l.skip(6) != done_marker() {
        Some(l.skip(6))
    } else {
        None
    }
}

fn payload_of(line: &[char]) -> (r: Option<Vec<char>>)
    ensures
        match r {
            Some(p) => sse_payload(line@) == Some(p@),
            None => sse_payload(line@) is None,
        },
{
    let mut end = line.len();
    assert(line@.take(end as int) =~= line@);
    while end > 0 && line[end - 1] == '\r'
        invariant
            end <= line@.len(),
            trim_cr_end(line@) == trim_cr_end(line@.take(end as int)),
        decreases end,
    {
        assert(line@.take(end as int).drop_last() =~= line@.take(end - 1));
        end -= 1;
    }
    let ghost l = line@.take(end as int);
    assert(trim_cr_end(l) == l);
    if end < 6 {
        return None;
    }
    let field = line[0] == 'd' && line[1] == 'a' && line[2] == 't' && line[3] == 'a' && line[4]
        == ':' && line[5] == ' ';
    if !field {
        assert(l.take(6) != data_field()) by {
            if l.take(6) == data_field() {
                assert(l.take(6)[0] == line@[0]);
                assert(l.take(6)[1] == line@[1]);
                assert(l.take(6)[2] == line@[2]);
                assert(l.take(6)[3] == line@[3]);
                assert(l.take(6)[4] == line@[4]);
                assert(l.take(6)[5] == line@[5]);
            }
        }
        return None;
    }
    assert(l.take(6) =~= data_field());
    let done = end == 12 && line[6] == '[' && line[7] == 'D' && line[8] == 'O' && line[9] == 'N'
        && line[10] == 'E' && line[11] == ']';
    if done {
        assert(l.skip(6) =~= done_marker());
        return None;
    }
    assert(l.skip(6) != done_marker()) by {
        if l.skip(6) == done_marker() {
            assert(l.skip(6).len() == 6);
            assert(l.skip(6)[0] == line@[6]);
            assert(l.skip(6)[1] == line@[7]);
            assert(l.skip(6)[2] == line@[8]);
            assert(l.skip(6)[3] == line@[9]);
            assert(l.skip(6)[4] == line@[10]);
            assert(l.skip(6)[5] == line@[11]);
        }
    }
    let mut out: Vec<char> = Vec::new();
    push_range(&mut out, line, 6, end);
    assert(out@ =~= l.skip(6));
    Some(out)
}

/// Appends a received chunk of an event stream to `buffer`, takes out every
/// line that is now complete, and returns the data payloads among them, in
/// order. What follows the last line ending stays in `buffer`.
pub fn take_sse_payloads(buffer: &mut String, chunk: &str) -> (r: Vec<String>)
    ensures
        final(buffer)@ == pieces(old(buffer)@ + chunk@, '\n').last(),
        r@.map_values(|p: String| p@) == pieces(old(buffer)@ + chunk@, '\n').drop_last().filter_map(
            |l: Seq<char>| sse_payload(l),
        ),
{
    let mut all = chars_of(buffer.as_str());
    let tail = chars_of(chunk);
    push_all(&mut all, tail.as_slice());
    let ghost whole = all@;
    let mut out: Vec<String> = Vec::new();
    let mut cur: Vec<char> = Vec::new();
    let ghost mut raw_done: Seq<Seq<char>> = Seq::empty();
    let mut i: usize = 0;
    while i < all.len()
        invariant
            whole == all@,
            i <= all@.len(),
            pieces(all@.take(i as int), '\n') == raw_done.push(cur@),
            out@.map_values(|p: String| p@) == raw_done.filter_map(|l: Seq<char>| sse_payload(l)),
        decreases all@.len() - i,
    {
        let c = all[i];
        assert(all@.take(i + 1).drop_last() =~= all@.take(i as int));
        proof {
            lemma_pieces_nonempty(all@.take(i as int), '\n');
        }
        if c == '\n' {
            let ghost raw0 = raw_done;
            let ghost out0 = out@;
            proof {
                raw_done = raw_done.push(cur@);
                assert(raw_done.drop_last() =~= raw0);
            }
            match payload_of(cur.as_slice()) {
                Some(p) => {
                    out.push(string_of(p.as_slice()));
                    assert(out@.map_values(|p: String| p@) =~= out0.map_values(|p: String| p@).push(
                        p@,
                    ));
                },
                None => {},
            }
            assert(out@.map_values(|p: String| p@) =~= raw_done.filter_map(
                |l: Seq<char>| sse_payload(l),
            ));
            cur = Vec::new();
            assert(pieces(all@.take(i + 1), '\n') =~= raw_done.push(cur@));
        } else {
            cur.push(c);
            assert(pieces(all@.take(i + 1), '\n') =~= raw_done.push(cur@));
        }
        i += 1;
    }
    assert(all@.take(all@.len() as int) =~= all@);
    assert(pieces(whole, '\n').drop_last() =~= raw_done);
    *buffer = string_of(cur.as_slice());
    out
}

} // verus!
