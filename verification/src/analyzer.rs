//! Parsing of analyzer output: memory-add commands, one per line, and the
//! id echoed back when a memory was stored.

use vstd::prelude::*;
use vstd::string::StrSliceExecFns;
use crate::text::{
    self, contains_sub, find_char, is_space, starts_with, trim_spec, trailing_spaces,
};

verus! {

/// What analysing a conversation produced.
#[derive(Debug)]
pub struct AnalysisResult {
    /// The extracted memory contents.
    pub memories: Vec<String>,
    /// The analyzer's raw standard output.
    pub raw_output: String,
    /// The analyzer's standard error, kept for diagnosis.
    pub stderr: String,
}

/// A line's content once a terminating line feed is accounted for: a
/// carriage return directly before the line feed is dropped.
pub open spec fn strip_cr(l: Seq<char>) -> Seq<char> {
    if l.len() > 0 && l.last() == '\r' {
        l.drop_last()
    } else {
        l
    }
}

/// The lines of `s`, split at line feeds, each stripped of a carriage
/// return before the line feed; a final line without terminator is kept as
/// it stands, and a trailing terminator opens no empty line.
pub open spec fn split_lines(s: Seq<char>) -> Seq<Seq<char>>
    decreases s.len(),
{
    if s.len() == 0 {
        Seq::empty()
    } else {
        let j = find_char(s, '\n');
        if 0 <= j < s.len() {
            seq![strip_cr(s.take(j))] + split_lines(s.skip(j + 1))
        } else {
            seq![s]
        }
    }
}

/// The text between the first two quote characters of `t`, if both exist.
pub open spec fn quoted_extract(t: Seq<char>) -> Option<Seq<char>> {
    let q1 = find_char(t, '"');
    if q1 == t.len() {
        None
    } else {
        let rest = t.skip(q1 + 1);
        let q2 = find_char(rest, '"');
        if q2 == rest.len() {
            None
        } else {
            Some(rest.take(q2))
        }
    }
}

/// The memory content a line contributes: the first quoted text of the
/// trimmed line, when the trimmed line starts with the add command.
pub open spec fn line_command(l: Seq<char>) -> Option<Seq<char>> {
    let t = trim_spec(l);
    if starts_with(t, "engram add"@) {
        quoted_extract(t)
    } else {
        None
    }
}

/// The commands of a sequence of lines, in order.
pub open spec fn commands_of_lines(ls: Seq<Seq<char>>) -> Seq<Seq<char>>
    decreases ls.len(),
{
    if ls.len() == 0 {
        Seq::empty()
    } else {
        let rest = commands_of_lines(ls.drop_first());
        match line_command(ls[0]) {
            Some(c) => seq![c] + rest,
            None => rest,
        }
    }
}

/// The memory contents named by add commands in analyzer output.
pub open spec fn parsed_commands(out: Seq<char>) -> Seq<Seq<char>> {
    commands_of_lines(split_lines(out))
}

/// The last whitespace-separated token of `l`, which must hold one: the
/// characters from just after the last whitespace before the trailing
/// whitespace, up to the trailing whitespace.
pub open spec fn token_start(l: Seq<char>, i: int) -> int
    decreases i,
{
    if i <= 0 {
        0
    } else if is_space(l[i - 1]) {
        i
    } else {
        token_start(l, i - 1)
    }
}

pub open spec fn last_token(l: Seq<char>) -> Seq<char> {
    let e = l.len() - trailing_spaces(l);
    l.subrange(token_start(l, e), e)
}

/// The id reported by the store command: the last token of the first line
/// that mentions the added-memory marker.
pub open spec fn added_id_of_lines(ls: Seq<Seq<char>>) -> Option<Seq<char>>
    decreases ls.len(),
{
    if ls.len() == 0 {
        None
    } else if contains_sub(ls[0], "Added memory:"@) {
        Some(last_token(ls[0]))
    } else {
        added_id_of_lines(ls.drop_first())
    }
}

pub open spec fn extracted_memory_id(out: Seq<char>) -> Option<Seq<char>> {
    added_id_of_lines(split_lines(out))
}

pub proof fn lemma_token_start(l: Seq<char>, i: int)
    requires
        0 <= i <= l.len(),
    ensures
        0 <= token_start(l, i) <= i,
        forall|j: int| token_start(l, i) <= j < i ==> !is_space(#[trigger] l[j]),
        token_start(l, i) > 0 ==> is_space(l[token_start(l, i) - 1]),
    decreases i,
{
    if i > 0 && !is_space(l[i - 1]) {
        lemma_token_start(l, i - 1);
    }
}

pub proof fn lemma_token_start_unique(l: Seq<char>, i: int, b: int)
    requires
        0 <= i <= l.len(),
        0 <= b <= i,
        forall|j: int| b <= j < i ==> !is_space(#[trigger] l[j]),
        b > 0 ==> is_space(l[b - 1]),
    ensures
        b == token_start(l, i),
{
    lemma_token_start(l, i);
    let f = token_start(l, i);
    if b < f {
        assert(!is_space(l[f - 1]));
    } else if f < b {
        assert(!is_space(l[b - 1]));
    }
}

/// The next line of `v` from `start`: its end, and the position after its
/// terminator.
fn next_line(v: &Vec<char>, start: usize) -> (r: (usize, usize))
    requires
        start < v@.len(),
    ensures
        start <= r.0 <= v@.len(),
        start < r.1 <= v@.len(),
        ({
            let sfx = v@.skip(start as int);
            let j = find_char(sfx, '\n');
            &&& (j == sfx.len() ==> r.0 == v@.len() && r.1 == v@.len())
            &&& (j < sfx.len() ==> r.0 == start + j && r.1 == start + j + 1)
        }),
{
    let nv = v.len();
    let j = text::find_char_from(v, start, '\n');
    proof {
        text::lemma_find_char(v@.skip(start as int), '\n');
    }
    if j == nv - start {
        (nv, nv)
    } else {
        (start + j, start + j + 1)
    }
}

/// Extracts the memory contents named by `engram add "..."` commands, one
/// per line, in analyzer output: for each line whose trimmed text starts
/// with the command, the text between the first two quotes.
#[verifier::loop_isolation(false)]
#[verifier::rlimit(100)]
pub fn parse_engram_add_commands(output: &str) -> (r: Vec<String>)
    ensures
        crate::store::str_views(r@) == parsed_commands(output@),
{
    let v = text::chars_of(output);
    let n = v.len();
    let mut acc: Vec<String> = Vec::new();
    let mut pos: usize = 0;
    proof {
        assert(v@.skip(0) =~= v@);
        assert(crate::store::str_views(acc@) + commands_of_lines(split_lines(v@.skip(0)))
            =~= parsed_commands(output@));
    }
    while pos < n
        invariant
            pos <= n,
            crate::store::str_views(acc@) + commands_of_lines(split_lines(v@.skip(pos as int)))
                == parsed_commands(output@),
        decreases n - pos,
    {
        let ghost sfx = v@.skip(pos as int);
        let (line_end_raw, next_pos) = next_line(&v, pos);
        let ghost j = find_char(sfx, '\n');
        // Drop a carriage return before the line feed.
        let line_end = if line_end_raw < n && line_end_raw > pos && v[line_end_raw - 1] == '\r' {
            line_end_raw - 1
        } else {
            line_end_raw
        };
        let ghost line = if j == sfx.len() { sfx } else { strip_cr(sfx.take(j)) };
        proof {
            text::lemma_find_char(sfx, '\n');
            if j == sfx.len() {
                assert(v@.subrange(pos as int, line_end as int) =~= line) by {
                    assert(v@.subrange(pos as int, line_end_raw as int) =~= sfx);
                }
                assert(split_lines(sfx) =~= seq![line]);
            } else {
                assert(sfx.take(j) =~= v@.subrange(pos as int, line_end_raw as int));
                assert(v@.subrange(pos as int, line_end as int) =~= line);
                assert(split_lines(sfx) =~= seq![line] + split_lines(sfx.skip(j + 1)));
                assert(sfx.skip(j + 1) =~= v@.skip(next_pos as int));
            }
        }

        // Judge the line: trim, check the command prefix, take the quoted
        // text.
        let (ta, tb) = text::trim_range(&v, pos, line_end);
        let trimmed = text::copy_range(&v, ta, tb);
        let ghost t = trim_spec(line);
        proof {
            assert(trimmed@ == t);
        }
        let prefix = text::chars_of("engram add");
        if text::vec_starts_with(&trimmed, &prefix) {
            let q1 = text::find_char_from(&v, ta, '"');
            proof {
                text::lemma_find_char(v@.skip(ta as int), '"');
                assert forall|k: int| 0 <= k < t.len() implies #[trigger] t[k] == v@.skip(
                    ta as int,
                )[k] by {
                    assert(t[k] == v@[ta + k]);
                }
            }
            if ta + q1 < tb {
                proof {
                    assert forall|k: int| 0 <= k < q1 implies t[k] != '"' by {
                        assert(v@.skip(ta as int)[k] != '"');
                    }
                    assert(t[q1 as int] == v@.skip(ta as int)[q1 as int]);
                    text::lemma_find_char_unique(t, '"', q1 as int);
                }
                let q2 = text::find_char_from(&v, ta + q1 + 1, '"');
                let ghost rest = t.skip(q1 + 1);
                proof {
                    text::lemma_find_char(v@.skip((ta + q1 + 1) as int), '"');
                    assert forall|k: int| 0 <= k < rest.len() implies #[trigger] rest[k] == v@.skip(
                        (ta + q1 + 1) as int,
                    )[k] by {
                        assert(rest[k] == v@[ta + q1 + 1 + k]);
                    }
                }
                if ta + q1 + 1 + q2 < tb {
                    proof {
                        assert forall|k: int| 0 <= k < q2 implies rest[k] != '"' by {
                            assert(v@.skip((ta + q1 + 1) as int)[k] != '"');
                        }
                        assert(rest[q2 as int] == v@.skip((ta + q1 + 1) as int)[q2 as int]);
                        text::lemma_find_char_unique(rest, '"', q2 as int);
                    }
                    let content = output.substring_char(ta + q1 + 1, ta + q1 + 1 + q2).to_owned();
                    let ghost old_acc = acc@;
                    acc.push(content);
                    proof {
                        crate::store::lemma_str_views_push(old_acc, acc@[acc@.len() - 1]);
                        assert(acc@[acc@.len() - 1]@ =~= rest.take(q2 as int)) by {
                            assert forall|k: int| 0 <= k < q2 implies v@.subrange(
                                (ta + q1 + 1) as int,
                                (ta + q1 + 1 + q2) as int,
                            )[k] == rest[k] by {
                                assert(rest[k] == v@[ta + q1 + 1 + k]);
                            }
                        }
                        assert(line_command(line) == Some(rest.take(q2 as int)));
                    }
                } else {
                    proof {
                        assert forall|k: int| 0 <= k < rest.len() implies rest[k] != '"' by {
                            assert(k < q2);
                            assert(v@.skip((ta + q1 + 1) as int)[k] != '"');
                        }
                        text::lemma_find_char_unique(rest, '"', rest.len() as int);
                        assert(line_command(line) is None);
                    }
                }
            } else {
                proof {
                    assert forall|k: int| 0 <= k < t.len() implies t[k] != '"' by {
                        assert(k < q1);
                        assert(v@.skip(ta as int)[k] != '"');
                    }
                    text::lemma_find_char_unique(t, '"', t.len() as int);
                    assert(line_command(line) is None);
                }
            }
        } else {
            proof {
                assert(line_command(line) is None);
            }
        }
        proof {
            // One line consumed: the parsed prefix grows exactly by this
            // line's command.
            let rest_cmds = if j == sfx.len() {
                Seq::<Seq<char>>::empty()
            } else {
                commands_of_lines(split_lines(v@.skip(next_pos as int)))
            };
            if j == sfx.len() {
                assert(commands_of_lines(split_lines(sfx)) =~= match line_command(line) {
                    Some(c) => seq![c],
                    None => Seq::<Seq<char>>::empty(),
                }) by {
                    assert(split_lines(sfx) == seq![line]);
                    assert(split_lines(sfx).drop_first() =~= Seq::<Seq<char>>::empty());
                }
            } else {
                assert(commands_of_lines(split_lines(sfx)) =~= match line_command(line) {
                    Some(c) => seq![c] + rest_cmds,
                    None => rest_cmds,
                }) by {
                    assert(split_lines(sfx).drop_first() =~= split_lines(v@.skip(next_pos as int)));
                    assert(split_lines(sfx)[0] == line);
                }
            }
            if next_pos >= n {
                assert(v@.skip(next_pos as int) =~= Seq::<char>::empty());
            }
            assert(crate::store::str_views(acc@) + commands_of_lines(
                split_lines(v@.skip(next_pos as int)),
            ) =~= parsed_commands(output@));
        }
        pos = next_pos;
    }
    proof {
        assert(v@.skip(pos as int) =~= Seq::<char>::empty());
        assert(crate::store::str_views(acc@) =~= parsed_commands(output@));
    }
    acc
}

/// Extracts the id from store output: the last whitespace-separated token
/// of the first line that mentions the added-memory marker, if any line
/// does.
#[verifier::loop_isolation(false)]
#[verifier::rlimit(100)]
pub fn extract_memory_id(output: &str) -> (r: Option<String>)
    ensures
        r is Some <==> extracted_memory_id(output@) is Some,
        r matches Some(s) ==> Some(s@) == extracted_memory_id(output@),
{
    let v = text::chars_of(output);
    let n = v.len();
    let marker = text::chars_of("Added memory:");
    let mut pos: usize = 0;
    proof {
        assert(v@.skip(0) =~= v@);
    }
    while pos < n
        invariant
            pos <= n,
            added_id_of_lines(split_lines(v@.skip(pos as int))) == extracted_memory_id(output@),
        decreases n - pos,
    {
        let ghost sfx = v@.skip(pos as int);
        let (line_end_raw, next_pos) = next_line(&v, pos);
        let ghost j = find_char(sfx, '\n');
        let line_end = if line_end_raw < n && line_end_raw > pos && v[line_end_raw - 1] == '\r' {
            line_end_raw - 1
        } else {
            line_end_raw
        };
        let ghost line = if j == sfx.len() { sfx } else { strip_cr(sfx.take(j)) };
        proof {
            text::lemma_find_char(sfx, '\n');
            if j == sfx.len() {
                assert(v@.subrange(pos as int, line_end as int) =~= line) by {
                    assert(v@.subrange(pos as int, line_end_raw as int) =~= sfx);
                }
                assert(split_lines(sfx) =~= seq![line]);
            } else {
                assert(sfx.take(j) =~= v@.subrange(pos as int, line_end_raw as int));
                assert(v@.subrange(pos as int, line_end as int) =~= line);
                assert(split_lines(sfx) =~= seq![line] + split_lines(sfx.skip(j + 1)));
                assert(sfx.skip(j + 1) =~= v@.skip(next_pos as int));
                assert(split_lines(sfx).drop_first() =~= split_lines(v@.skip(next_pos as int)));
            }
        }
        let lv = text::copy_range(&v, pos, line_end);
        if text::vec_contains_chars(&lv, &marker) {
            // Last token: strip trailing whitespace, then walk back to the
            // preceding whitespace.
            let mut e: usize = line_end;
            while e > pos && text::is_space_exec(v[e - 1])
                invariant
                    pos <= e <= line_end <= v@.len(),
                    forall|k: int| e <= k < line_end ==> is_space(#[trigger] v@[k]),
                decreases e,
            {
                e -= 1;
            }
            proof {
                assert forall|k: int| line.len() - (line_end - e) <= k < line.len() implies is_space(
                    #[trigger] line[k],
                ) by {
                    assert(line[k] == v@[pos + k]);
                }
                if e > pos {
                    assert(line[e - pos - 1] == v@[e - 1]);
                }
                text::lemma_trailing_spaces_unique(line, line_end - e);
                // The marker guarantees a non-space character.
                if e == pos {
                    assert(contains_sub(line, "Added memory:"@));
                    let w = choose|w: int| text::matches_at(line, "Added memory:"@, w);
                    assert(text::matches_at(line, "Added memory:"@, w));
                    reveal_strlit("Added memory:");
                    assert("Added memory:"@.len() == 13);
                    assert(line.subrange(w, w + 13) == "Added memory:"@);
                    assert(line[w] == line.subrange(w, w + 13)[0]);
                    assert(line[w] == 'A');
                    assert(is_space(line[w]));
                    assert(false);
                }
            }
            let mut b: usize = e;
            while b > pos && !text::is_space_exec(v[b - 1])
                invariant
                    pos <= b <= e,
                    forall|k: int| b <= k < e ==> !is_space(#[trigger] v@[k]),
                decreases b,
            {
                b -= 1;
            }
            proof {
                assert forall|k: int| b - pos <= k < e - pos implies !is_space(#[trigger] line[k]) by {
                    assert(line[k] == v@[pos + k]);
                }
                if b > pos {
                    assert(line[b - pos - 1] == v@[b - 1]);
                }
                lemma_token_start_unique(line, e - pos, b - pos);
                assert(v@.subrange(b as int, e as int) =~= last_token(line)) by {
                    assert forall|k: int| 0 <= k < e - b implies v@.subrange(b as int, e as int)[k]
                        == line.subrange(b - pos, e - pos)[k] by {
                        assert(line[b - pos + k] == v@[b + k]);
                    }
                }
            }
            let token = output.substring_char(b, e).to_owned();
            proof {
                assert(added_id_of_lines(split_lines(sfx)) == Some(last_token(line)));
            }
            return Some(token);
        }
        proof {
            assert(!contains_sub(line, "Added memory:"@));
            if j == sfx.len() {
                assert(split_lines(sfx) == seq![line]);
                assert(seq![line].drop_first() =~= Seq::<Seq<char>>::empty());
                assert(added_id_of_lines(Seq::<Seq<char>>::empty()) is None);
                assert(added_id_of_lines(split_lines(sfx)) is None);
            }
            if next_pos >= n {
                assert(v@.skip(next_pos as int) =~= Seq::<char>::empty());
            }
        }
        pos = next_pos;
    }
    proof {
        assert(v@.skip(pos as int) =~= Seq::<char>::empty());
    }
    None
}

} // verus!
