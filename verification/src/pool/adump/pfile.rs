//! Property file parser.
//!
//! This is a simplistic property file parser.  It is only expected to parse
//! the properties output by this program: lines of `key=value`, without
//! spaces around the `=` and without continuation lines.  A line that is
//! empty or starts with `#` says nothing.

use vstd::prelude::*;
use vstd::slice::{slice_subrange, slice_to_vec};
use vstd::utf8::valid_utf8;
use crate::error::Error;
use crate::text::is_utf8;

verus! {

/// Where the first newline stands in `s`, or the length of `s` if it has none.
pub open spec fn line_end(s: Seq<u8>) -> int
    decreases s.len(),
{
    if s.len() == 0 || s[0] == 0x0a {
        0
    } else {
        1 + line_end(s.drop_first())
    }
}

/// A line without the carriage return that may end it.
pub open spec fn strip_cr(line: Seq<u8>) -> Seq<u8> {
    if line.len() > 0 && line.last() == 0x0d {
        line.drop_last()
    } else {
        line
    }
}

/// The lines of a text: what stands between its newlines, without the
/// carriage return that may stand before a newline.  What follows the last
/// newline is a line if anything is there.
pub open spec fn lines(s: Seq<u8>) -> Seq<Seq<u8>>
    decreases s.len(),
    via lines_decreases
{
    if s.len() == 0 {
        Seq::<Seq<u8>>::empty()
    } else {
        let end = line_end(s);
        if end < s.len() {
            seq![strip_cr(s.take(end))] + lines(s.skip(end + 1))
        } else {
            seq![s]
        }
    }
}

#[via_fn]
proof fn lines_decreases(s: Seq<u8>) {
    lemma_line_end(s);
}

pub proof fn lemma_line_end(s: Seq<u8>)
    ensures
        0 <= line_end(s) <= s.len(),
        line_end(s) < s.len() ==> s[line_end(s)] == 0x0a,
        forall|i: int| 0 <= i < line_end(s) ==> s[i] != 0x0a,
    decreases s.len(),
{
    if s.len() > 0 && s[0] != 0x0a {
        lemma_line_end(s.drop_first());
        assert forall|i: int| 0 <= i < line_end(s) implies s[i] != 0x0a by {
            if i > 0 {
                assert(s.drop_first()[i - 1] == s[i]);
            }
        }
    }
}

/// Does the line say nothing: is it empty, or a comment?
pub open spec fn is_blank(line: Seq<u8>) -> bool {
    line.len() == 0 || line[0] == 0x23
}

/// Where the first `=` stands in a line, or the length of the line if it
/// has none.
pub open spec fn eq_at(line: Seq<u8>) -> int
    decreases line.len(),
{
    if line.len() == 0 || line[0] == 0x3d {
        0
    } else {
        1 + eq_at(line.drop_first())
    }
}

pub proof fn lemma_eq_at(line: Seq<u8>)
    ensures
        0 <= eq_at(line) <= line.len(),
        eq_at(line) < line.len() ==> line[eq_at(line)] == 0x3d,
        forall|i: int| 0 <= i < eq_at(line) ==> line[i] != 0x3d,
    decreases line.len(),
{
    if line.len() > 0 && line[0] != 0x3d {
        lemma_eq_at(line.drop_first());
        assert forall|i: int| 0 <= i < eq_at(line) implies line[i] != 0x3d by {
            if i > 0 {
                assert(line.drop_first()[i - 1] == line[i]);
            }
        }
    }
}

/// Is the line one that the parser refuses: one that says something, but
/// has no `=`?
pub open spec fn is_bad(line: Seq<u8>) -> bool {
    !is_blank(line) && eq_at(line) == line.len()
}

/// What the lines say, later lines over earlier ones.
pub open spec fn props_of(text: Seq<Seq<u8>>) -> Map<Seq<u8>, Seq<u8>>
    decreases text.len(),
{
    if text.len() == 0 {
        Map::<Seq<u8>, Seq<u8>>::empty()
    } else {
        let before = props_of(text.drop_last());
        let line = text.last();
        if is_blank(line) || is_bad(line) {
            before
        } else {
            before.insert(line.take(eq_at(line)), line.skip(eq_at(line) + 1))
        }
    }
}

/// The properties of a file: each key with its value.
#[derive(Debug)]
pub struct Props {
    keys: Vec<Vec<u8>>,
    values: Vec<Vec<u8>>,
}

/// The map that a row of keys and a row of values make, later rows over
/// earlier ones.
pub open spec fn rows_map(keys: Seq<Vec<u8>>, values: Seq<Vec<u8>>) -> Map<Seq<u8>, Seq<u8>>
    decreases keys.len(),
{
    if keys.len() == 0 || values.len() == 0 {
        Map::<Seq<u8>, Seq<u8>>::empty()
    } else {
        rows_map(keys.drop_last(), values.drop_last()).insert(keys.last()@, values.last()@)
    }
}

impl Props {
    /// What the properties say.
    pub closed spec fn map(self) -> Map<Seq<u8>, Seq<u8>> {
        rows_map(self.keys@, self.values@)
    }

    #[verifier::type_invariant]
    pub closed spec fn wf(self) -> bool {
        self.keys@.len() == self.values@.len()
    }

    /// The value of a key, if the properties have it.
    pub fn get(&self, key: &[u8]) -> (r: Option<&Vec<u8>>)
        ensures
            match r {
                Some(v) => self.map().contains_key(key@) && self.map()[key@] == v@,
                None => !self.map().contains_key(key@),
            },
    {
        proof {
            use_type_invariant(self);
        }
        let mut i: usize = self.keys.len();
        assert(self.keys@.take(i as int) =~= self.keys@);
        assert(self.values@.take(i as int) =~= self.values@);
        while i > 0
            invariant
                i <= self.keys@.len() == self.values@.len(),
                self.map().contains_key(key@) == rows_map(
                    self.keys@.take(i as int),
                    self.values@.take(i as int),
                ).contains_key(key@),
                self.map().contains_key(key@) ==> self.map()[key@] == rows_map(
                    self.keys@.take(i as int),
                    self.values@.take(i as int),
                )[key@],
            decreases i,
        {
            i -= 1;
            proof {
                assert(self.keys@.take(i + 1).drop_last() =~= self.keys@.take(i as int));
                assert(self.values@.take(i + 1).drop_last() =~= self.values@.take(i as int));
            }
            if same_bytes(self.keys[i].as_slice(), key) {
                return Some(&self.values[i]);
            }
        }
        None
    }
}

/// Are the two the same bytes?
pub fn same_bytes(a: &[u8], b: &[u8]) -> (r: bool)
    ensures
        r == (a@ == b@),
{
    if a.len() != b.len() {
        return false;
    }
    let mut i: usize = 0;
    while i < a.len()
        invariant
            i <= a@.len() == b@.len(),
            forall|j: int| 0 <= j < i ==> a@[j] == b@[j],
        decreases a@.len() - i,
    {
        if a[i] != b[i] {
            return false;
        }
        i += 1;
    }
    assert(a@ =~= b@);
    true
}

/// Where `byte` first stands in `s`, or the length of `s` if it has none.
fn find_byte(s: &[u8], byte: u8) -> (r: usize)
    ensures
        r <= s@.len(),
        r < s@.len() ==> s@[r as int] == byte,
        forall|i: int| 0 <= i < r ==> s@[i] != byte,
{
    let mut i: usize = 0;
    while i < s.len() && s[i] != byte
        invariant
            i <= s@.len(),
            forall|j: int| 0 <= j < i ==> s@[j] != byte,
        decreases s@.len() - i,
    {
        i += 1;
    }
    i
}

/// The place that `line_end` names is the first newline.
proof fn lemma_line_end_is(s: Seq<u8>, at: int)
    requires
        0 <= at <= s.len(),
        at < s.len() ==> s[at] == 0x0a,
        forall|i: int| 0 <= i < at ==> s[i] != 0x0a,
    ensures
        line_end(s) == at,
{
    lemma_line_end(s);
    let e = line_end(s);
    if e < at {
        assert(s[e] != 0x0a);
    } else if at < e {
        assert(s[at] != 0x0a);
    }
}

/// The place that `eq_at` names is the first `=`.
proof fn lemma_eq_at_is(line: Seq<u8>, at: int)
    requires
        0 <= at <= line.len(),
        at < line.len() ==> line[at] == 0x3d,
        forall|i: int| 0 <= i < at ==> line[i] != 0x3d,
    ensures
        eq_at(line) == at,
{
    lemma_eq_at(line);
    let e = eq_at(line);
    if e < at {
        assert(line[e] != 0x3d);
    } else if at < e {
        assert(line[at] != 0x3d);
    }
}

/// A text that begins with a line and a newline: its lines are that line
/// and the lines of the rest.  The line holds no newline and does not end in
/// a carriage return.
pub proof fn lemma_first_line(line: Seq<u8>, rest: Seq<u8>)
    requires
        forall|i: int| 0 <= i < line.len() ==> line[i] != 0x0a,
        line.len() == 0 || line.last() != 0x0d,
    ensures
        lines(line + seq![0x0au8] + rest) == seq![line] + lines(rest),
{
    let text = line + seq![0x0au8] + rest;
    lemma_line_end_is(text, line.len() as int);
    assert(text.take(line.len() as int) =~= line);
    assert(text.skip(line.len() as int + 1) =~= rest);
}

/// A line of a key, `=` and a value says that the key has that value.  The
/// key is not empty, holds no `=` and does not begin with `#`.
pub proof fn lemma_key_value(key: Seq<u8>, value: Seq<u8>)
    requires
        key.len() > 0,
        key[0] != 0x23,
        forall|i: int| 0 <= i < key.len() ==> key[i] != 0x3d,
    ensures
        ({
            let line = key + seq![0x3du8] + value;
            &&& !is_blank(line)
            &&& !is_bad(line)
            &&& line.take(eq_at(line)) == key
            &&& line.skip(eq_at(line) + 1) == value
        }),
{
    let line = key + seq![0x3du8] + value;
    lemma_eq_at_is(line, key.len() as int);
    assert(line.take(key.len() as int) =~= key);
    assert(line.skip(key.len() as int + 1) =~= value);
    assert(line[0] == key[0]);
}

/// Is one of the lines refused?
pub open spec fn any_bad(text: Seq<Seq<u8>>) -> bool {
    exists|i: int| 0 <= i < text.len() && is_bad(#[trigger] text[i])
}

/// Lines put behind lines say what the first say, with what the others say
/// laid over it.
proof fn lemma_props_of_push(text: Seq<Seq<u8>>, line: Seq<u8>)
    ensures
        props_of(text.push(line)) == if is_blank(line) || is_bad(line) {
            props_of(text)
        } else {
            props_of(text).insert(line.take(eq_at(line)), line.skip(eq_at(line) + 1))
        },
{
    assert(text.push(line).drop_last() =~= text);
}

/// The lines of a text are its first line and the lines of the rest.
proof fn lemma_lines_split(done: Seq<Seq<u8>>, rest: Seq<u8>)
    requires
        rest.len() > 0,
    ensures
        ({
            let end = line_end(rest);
            done + lines(rest) == if end < rest.len() {
                done.push(strip_cr(rest.take(end))) + lines(rest.skip(end + 1))
            } else {
                done.push(rest)
            }
        }),
{
    let end = line_end(rest);
    if end < rest.len() {
        let first = strip_cr(rest.take(end));
        assert(done + (seq![first] + lines(rest.skip(end + 1))) =~= done.push(first) + lines(
            rest.skip(end + 1),
        ));
    } else {
        assert(done + seq![rest] =~= done.push(rest));
    }
}

/// Try to parse the input as properties.  This is fairly strict, no spaces
/// are allowed around the '=', there are no continuation lines.  The only
/// comment format recognized is '#'.  The input must be UTF-8.
pub fn parse(input: &[u8]) -> (r: Result<Props, Error>)
    ensures
        match r {
            Ok(props) => valid_utf8(input@) && !any_bad(lines(input@)) && props.map() == props_of(
                lines(input@),
            ),
            Err(Error::Utf8Error) => !valid_utf8(input@),
            Err(Error::PropertyError(_)) => valid_utf8(input@) && any_bad(lines(input@)),
            Err(_) => false,
        },
{
    if !is_utf8(input) {
        return Err(Error::Utf8Error);
    }
    let ghost all = lines(input@);
    let mut keys: Vec<Vec<u8>> = Vec::new();
    let mut values: Vec<Vec<u8>> = Vec::new();
    let mut pos: usize = 0;
    let ghost mut done = Seq::<Seq<u8>>::empty();
    assert(input@.skip(0) =~= input@);
    assert(done + lines(input@) =~= all);
    while pos < input.len()
        invariant
            pos <= input@.len(),
            valid_utf8(input@),
            all == lines(input@),
            done + lines(input@.skip(pos as int)) == all,
            !any_bad(done),
            keys@.len() == values@.len(),
            rows_map(keys@, values@) == props_of(done),
        decreases input@.len() - pos,
    {
        let rest = slice_subrange(input, pos, input.len());
        assert(rest@ =~= input@.skip(pos as int));
        let end = find_byte(rest, 0x0a);
        let mut line = slice_subrange(rest, 0, end);
        proof {
            lemma_line_end_is(rest@, end as int);
            assert(line@ =~= rest@.take(end as int));
        }
        if end < rest.len() && line.len() > 0 && line[line.len() - 1] == 0x0d {
            line = slice_subrange(line, 0, line.len() - 1);
        }
        proof {
            if end < rest@.len() {
                assert(line@ =~= strip_cr(rest@.take(end as int)));
            } else {
                assert(line@ =~= rest@);
            }
        }
        proof {
            lemma_lines_split(done, rest@);
            lemma_props_of_push(done, line@);
            if end < rest@.len() {
                assert(rest@.skip(end + 1) =~= input@.skip(pos + end + 1));
            } else {
                assert(lines(input@.skip(input@.len() as int)) =~= Seq::<Seq<u8>>::empty());
                assert(done.push(line@) + Seq::<Seq<u8>>::empty() =~= done.push(line@));
            }
        }
        if line.len() > 0 && line[0] != 0x23 {
            let eq = find_byte(line, 0x3d);
            proof {
                lemma_eq_at_is(line@, eq as int);
            }
            if eq == line.len() {
                proof {
                    let k = done.len() as int;
                    assert(all == done.push(line@) + lines(input@.skip(pos + end + 1)) || all
                        == done.push(line@));
                    assert(0 <= k < all.len());
                    assert(all[k] == line@);
                    assert(is_blank(line@) == (line@.len() == 0 || line@[0] == 0x23));
                    assert(is_bad(all[k]));
                    assert(any_bad(all));
                }
                return Err(Error::PropertyError("Line has no '='".to_owned()));
            }
            let key = slice_to_vec(slice_subrange(line, 0, eq));
            let value = slice_to_vec(slice_subrange(line, eq + 1, line.len()));
            proof {
                assert(key@ =~= line@.take(eq as int));
                assert(value@ =~= line@.skip(eq + 1));
                assert(keys@.push(key).drop_last() =~= keys@);
                assert(values@.push(value).drop_last() =~= values@);
            }
            keys.push(key);
            values.push(value);
        }
        proof {
            let grown = done.push(line@);
            assert forall|i: int| 0 <= i < grown.len() implies !is_bad(#[trigger] grown[i]) by {
                if i < done.len() {
                    assert(grown[i] == done[i]);
                }
            }
            done = grown;
        }
        pos = if end < rest.len() { pos + end + 1 } else { input.len() };
    }
    proof {
        assert(lines(input@.skip(pos as int)) =~= Seq::<Seq<u8>>::empty());
        assert(done + Seq::<Seq<u8>>::empty() =~= done);
    }
    Ok(Props { keys: keys, values: values })
}

} // verus!
