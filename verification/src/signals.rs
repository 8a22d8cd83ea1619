//! The signal bus reader: from the text of an append-only signal file, the
//! last non-blank line, parsed as a JSON record with a numeric `value`, a
//! string `timestamp` and a string `label`. Anything malformed yields no
//! signal rather than an error.
use vstd::prelude::*;
use crate::text::trim;
use crate::liveness::split_lines;
use vstd::string::StrSliceExecFns;

verus! {

/// The most recent status record of one application. The value is carried
/// as the number's canonical JSON text, as the reader re-serializes it
/// (an input written `2.00` arrives as `2.0`).
pub struct Signal {
    pub value_text: String,
    pub timestamp: String,
    pub label: String,
}

/// The last line of the split text whose trimmed form is non-empty.
pub open spec fn last_nonblank_of(lines: Seq<Seq<char>>) -> Option<Seq<char>>
    decreases lines.len(),
{
    if lines.len() == 0 {
        None
    } else if trim(lines.last()).len() > 0 {
        Some(lines.last())
    } else {
        last_nonblank_of(lines.drop_last())
    }
}

/// The last non-blank line of a file's text.
pub open spec fn last_nonblank_line(s: Seq<char>) -> Option<Seq<char>> {
    last_nonblank_of(split_lines(s))
}

/// What parsing a signal line yields: the value's JSON number text, the
/// timestamp and the label, or nothing. The result is a function of the
/// line alone.
pub uninterp spec fn parsed_signal(line: Seq<char>) -> Option<(Seq<char>, Seq<char>, Seq<char>)>;

/// Relies on serde_json::from_str and serde_json::Value's accessors: the
/// line parses to a JSON object carrying a numeric `value`, a string
/// `timestamp` and a string `label`, or yields nothing; the outcome depends
/// on the line alone.
#[verifier::external_body]
fn parse_signal_json(line: &str) -> (r: Option<Signal>)
    ensures
        match r {
            Some(s) => parsed_signal(line@) == Some((s.value_text@, s.timestamp@, s.label@)),
            None => parsed_signal(line@) is None,
        },
{
    let parsed: serde_json::Value = serde_json::from_str(line).ok()?;
    let value = parsed.get("value")?;
    if !value.is_number() {
        return None;
    }
    let timestamp = parsed.get("timestamp")?.as_str()?.to_owned();
    let label = parsed.get("label")?.as_str()?.to_owned();
    Some(Signal { value_text: value.to_string(), timestamp, label })
}

/// The signal a file's text yields: its last non-blank line's parse.
pub open spec fn signal_of_text(s: Seq<char>) -> Option<(Seq<char>, Seq<char>, Seq<char>)> {
    match last_nonblank_line(s) {
        None => None,
        Some(l) => parsed_signal(l),
    }
}

/// The last non-blank line of the text, as the original line.
pub fn last_signal_line(contents: &str) -> (r: Option<String>)
    ensures
        match r {
            Some(l) => last_nonblank_line(contents@) == Some(l@),
            None => last_nonblank_line(contents@) is None,
        },
{
    let n: usize = contents.unicode_len();
    let ghost gl = split_lines(contents@);
    let mut pos: usize = 0;
    let ghost mut li: int = 0;
    let mut best: Option<String> = None;
    proof {
        assert(contents@.skip(0) =~= contents@);
        assert(gl.skip(0) =~= gl);
        assert(gl.take(0) =~= Seq::<Seq<char>>::empty());
    }
    while pos < n
        invariant
            0 <= pos <= n,
            0 <= li <= gl.len(),
            n == contents@.len(),
            gl == split_lines(contents@),
            split_lines(contents@.skip(pos as int)) == gl.skip(li),
            match best {
                Some(l) => last_nonblank_of(gl.take(li)) == Some(l@),
                None => last_nonblank_of(gl.take(li)) is None,
            },
        decreases n - pos,
    {
        let mut k: usize = pos;
        while k < n && contents.get_char(k) != '\n'
            invariant
                pos <= k <= n,
                n == contents@.len(),
                forall|j: int| pos <= j < k ==> contents@[j] != '\n',
            decreases n - k,
        {
            k = k + 1;
        }
        let ghost su = contents@.skip(pos as int);
        proof {
            assert(forall|j: int| 0 <= j < k - pos ==> su[j] == contents@[j + pos]);
            if k < n {
                assert(su[k - pos] == contents@[k as int]);
            }
            crate::liveness::lemma_prefix_to_nl_unique(su, k - pos);
            assert(su.len() > 0);
        }
        let line = contents.substring_char(pos, k);
        proof {
            assert(line@ =~= su.take(k - pos));
            if k - pos == su.len() {
                assert(su.take(k - pos) =~= su);
                assert(split_lines(su) == seq![su]);
            }
            assert(split_lines(su).len() >= 1);
            assert(li < gl.len());
            assert(split_lines(su)[0] == su.take(k - pos));
            assert(gl.skip(li)[0] == gl[li]);
            assert(gl[li] == line@);
        }
        let t = crate::text::trimmed(line);
        if t.unicode_len() > 0 {
            best = Some(line.to_owned());
        }
        proof {
            assert(gl.take(li + 1).last() == gl[li]);
            assert(gl.take(li + 1).drop_last() =~= gl.take(li));
        }
        if k < n {
            pos = k + 1;
            proof {
                assert(su.skip(crate::liveness::prefix_to_nl(su) + 1) =~= contents@.skip(
                    pos as int,
                ));
                assert(split_lines(su) == seq![su.take(crate::liveness::prefix_to_nl(su))]
                    + split_lines(contents@.skip(pos as int)));
                assert(gl.skip(li).drop_first() =~= gl.skip(li + 1));
                assert(split_lines(contents@.skip(pos as int)) == gl.skip(li + 1));
            }
        } else {
            pos = n;
            proof {
                assert(split_lines(su) == seq![su]);
                assert(gl.skip(li).len() == 1);
                assert(contents@.skip(n as int).len() == 0);
                assert(split_lines(contents@.skip(pos as int)) =~= gl.skip(li + 1));
            }
        }
        proof {
            li = li + 1;
        }
    }
    proof {
        assert(contents@.skip(pos as int).len() == 0);
        assert(gl.skip(li).len() == 0);
        assert(li == gl.len());
        assert(gl.take(li) =~= gl);
    }
    best
}

/// The signal carried by a file's text: the parse of its last non-blank
/// line, or nothing when every line is blank or the parse fails.
pub fn signal_from_text(contents: &str) -> (r: Option<Signal>)
    ensures
        match r {
            Some(s) => signal_of_text(contents@) == Some((s.value_text@, s.timestamp@, s.label@)),
            None => signal_of_text(contents@) is None,
        },
{
    match last_signal_line(contents) {
        Some(line) => parse_signal_json(line.as_str()),
        None => None,
    }
}

/// The three known applications' latest signals. A missing file arrives as
/// no text and yields no signal.
pub struct SignalsReport {
    pub companion: Option<Signal>,
    pub dugout: Option<Signal>,
    pub hmm: Option<Signal>,
}

/// What one optional file text yields.
pub open spec fn signal_of_opt_text(t: Option<Seq<char>>) -> Option<
    (Seq<char>, Seq<char>, Seq<char>),
> {
    match t {
        None => None,
        Some(s) => signal_of_text(s),
    }
}

pub open spec fn signal_view(r: Option<Signal>) -> Option<(Seq<char>, Seq<char>, Seq<char>)> {
    match r {
        None => None,
        Some(s) => Some((s.value_text@, s.timestamp@, s.label@)),
    }
}

/// Reads the three applications' signals from the texts of their files.
/// One malformed or absent file never disturbs the others' signals.
pub fn read_signals(companion: Option<&str>, dugout: Option<&str>, hmm: Option<&str>) -> (r:
    SignalsReport)
    ensures
        signal_view(r.companion) == signal_of_opt_text(
            match companion {
                Some(s) => Some(s@),
                None => None,
            },
        ),
        signal_view(r.dugout) == signal_of_opt_text(
            match dugout {
                Some(s) => Some(s@),
                None => None,
            },
        ),
        signal_view(r.hmm) == signal_of_opt_text(
            match hmm {
                Some(s) => Some(s@),
                None => None,
            },
        ),
{
    let c = match companion {
        Some(s) => signal_from_text(s),
        None => None,
    };
    let d = match dugout {
        Some(s) => signal_from_text(s),
        None => None,
    };
    let h = match hmm {
        Some(s) => signal_from_text(s),
        None => None,
    };
    SignalsReport { companion: c, dugout: d, hmm: h }
}

} // verus!
