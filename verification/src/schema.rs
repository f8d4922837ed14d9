//! Schema fragments and the order in which they apply. The name of a schema file
//! is a decimal number, a hyphen and a rest without a hyphen; the number gives the
//! fragment's place.

use crate::error::{Error, ParseIntProblem, SchemaFileProblem};
use crate::filemetadata::texts;
use vstd::prelude::*;

verus! {

/// The pieces that `separator` cuts `text` into. There is always one piece more
/// than there are separators, so that a text without any is its own single piece.
pub open spec fn components(text: Seq<char>, separator: char) -> Seq<Seq<char>>
    decreases text.len(),
{
    if text.len() == 0 {
        seq![Seq::empty()]
    } else {
        let before = components(text.drop_last(), separator);
        if text.last() == separator {
            before.push(Seq::empty())
        } else {
            before.drop_last().push(before.last().push(text.last()))
        }
    }
}

/// A text is cut into one piece at least, so that no name is without components.
pub proof fn lemma_components_len(text: Seq<char>, separator: char)
    ensures
        components(text, separator).len() >= 1,
    decreases text.len(),
{
    if text.len() > 0 {
        lemma_components_len(text.drop_last(), separator);
    }
}

/// The value of a decimal digit.
pub open spec fn digit(c: char) -> Option<int> {
    if '0' <= c <= '9' {
        Some(c as int - '0' as int)
    } else {
        None
    }
}

/// The number that a text of decimal digits stands for, read from the left as far
/// as it fits a `u16`: what is no digit and what makes the number too large is
/// told as soon as it is met.
pub open spec fn digits_value(digits: Seq<char>) -> Result<int, ParseIntProblem>
    decreases digits.len(),
{
    if digits.len() == 0 {
        Ok(0)
    } else {
        match digits_value(digits.drop_last()) {
            Err(problem) => Err(problem),
            Ok(value) => match digit(digits.last()) {
                None => Err(ParseIntProblem::InvalidDigit),
                Some(d) => if value * 10 + d > u16::MAX {
                    Err(ParseIntProblem::PosOverflow)
                } else {
                    Ok(value * 10 + d)
                },
            },
        }
    }
}

/// The `u16` that a text is the decimal numeral of: digits, with or without a
/// plus sign in front.
pub open spec fn numeral(text: Seq<char>) -> Result<u16, ParseIntProblem> {
    if text.len() == 0 {
        Err(ParseIntProblem::Empty)
    } else {
        let digits = if text[0] == '+' {
            text.subrange(1, text.len() as int)
        } else {
            text
        };
        if digits.len() == 0 {
            Err(ParseIntProblem::InvalidDigit)
        } else {
            match digits_value(digits) {
                Ok(value) => Ok(value as u16),
                Err(problem) => Err(problem),
            }
        }
    }
}

/// The place that the name of a schema file gives to its fragment.
pub open spec fn schema_number(name: Seq<char>) -> Result<u16, Error> {
    let parts = components(name, '-');
    if parts.len() != 2 {
        Err(Error::InvalidSchemaFile(SchemaFileProblem::WrongNumberOfComponents))
    } else {
        match numeral(parts[0]) {
            Ok(number) => Ok(number),
            Err(problem) => Err(Error::ParseInt(problem)),
        }
    }
}

/// The texts that a vector of pieces stands for.
pub open spec fn piece_views(pieces: Seq<Vec<char>>) -> Seq<Seq<char>> {
    pieces.map_values(|piece: Vec<char>| piece@)
}

/// Cuts `text` at every `separator`.
pub fn split(text: &str, separator: char) -> (pieces: Vec<Vec<char>>)
    ensures
        piece_views(pieces@) == components(text@, separator),
{
    let mut pieces: Vec<Vec<char>> = Vec::new();
    let mut current: Vec<char> = Vec::new();
    for c in it: text.chars()
        invariant
            it.seq() == text@,
            piece_views(pieces@).push(current@) == components(
                text@.take(it.index() as int),
                separator,
            ),
    {
        proof {
            assert(text@.take(it.index() + 1).drop_last() =~= text@.take(it.index() as int));
        }
        if c == separator {
            pieces.push(current);
            current = Vec::new();
        } else {
            current.push(c);
        }
    }
    pieces.push(current);
    proof {
        assert(text@.take(text@.len() as int) =~= text@);
    }
    pieces
}

/// Reads a decimal numeral as a `u16`.
pub fn parse_u16(text: &Vec<char>) -> (parsed: Result<u16, ParseIntProblem>)
    ensures
        parsed == numeral(text@),
{
    if text.len() == 0 {
        return Err(ParseIntProblem::Empty);
    }
    let start: usize = if text[0] == '+' {
        1
    } else {
        0
    };
    if start == text.len() {
        return Err(ParseIntProblem::InvalidDigit);
    }
    let ghost digits = text@.subrange(start as int, text.len() as int);
    let mut value: u16 = 0;
    let mut i: usize = start;
    while i < text.len()
        invariant
            start <= i <= text.len(),
            start < text.len(),
            start == if text@[0] == '+' {
                1int
            } else {
                0int
            },
            digits == text@.subrange(start as int, text.len() as int),
            digits_value(digits.take(i - start)) == Ok::<int, ParseIntProblem>(value as int),
        decreases text.len() - i,
    {
        let c = text[i];
        proof {
            assert(digits.take(i - start + 1).drop_last() =~= digits.take(i - start));
            lemma_digits_value_of_prefix(digits, i - start + 1);
            if start == 0 {
                assert(digits =~= text@);
            }
        }
        if c < '0' || c > '9' {
            return Err(ParseIntProblem::InvalidDigit);
        }
        let d: u16 = (c as u32 - '0' as u32) as u16;
        if value > (u16::MAX - d) / 10 {
            return Err(ParseIntProblem::PosOverflow);
        }
        value = value * 10 + d;
        i += 1;
    }
    proof {
        assert(digits.take(i - start) =~= digits);
        if start == 0 {
            assert(digits =~= text@);
        }
    }
    Ok(value)
}

/// What fails of the digits read so far fails of all of them, and in the same way.
pub proof fn lemma_digits_value_of_prefix(digits: Seq<char>, len: int)
    requires
        0 <= len <= digits.len(),
    ensures
        digits_value(digits.take(len)) matches Err(problem) ==> digits_value(digits) == Err::<
            int,
            ParseIntProblem,
        >(problem),
    decreases digits.len() - len,
{
    if len < digits.len() {
        assert(digits.take(len + 1).drop_last() =~= digits.take(len));
        lemma_digits_value_of_prefix(digits, len + 1);
    } else {
        assert(digits.take(len) =~= digits);
    }
}

/// The place that the name of a schema file gives to its fragment: the number in
/// front of the one hyphen of the name.
pub fn filename_u16(name: &str) -> (number: Result<u16, Error>)
    ensures
        number == schema_number(name@),
{
    let parts = split(name, '-');
    if parts.len() != 2 {
        return Err(Error::InvalidSchemaFile(SchemaFileProblem::WrongNumberOfComponents));
    }
    match parse_u16(&parts[0]) {
        Ok(number) => Ok(number),
        Err(problem) => Err(Error::ParseInt(problem)),
    }
}

/// A schema file as it was read: its name within the schema directory and its
/// content.
#[derive(Debug)]
pub struct SchemaFile {
    pub name: String,
    pub content: String,
}

/// What a [`SchemaFile`] stands for in contracts.
pub struct SchemaFileView {
    pub name: Seq<char>,
    pub content: Seq<char>,
}

impl View for SchemaFile {
    type V = SchemaFileView;

    open spec fn view(&self) -> SchemaFileView {
        SchemaFileView { name: self.name@, content: self.content@ }
    }
}

/// The schema files that a vector of them stands for.
pub open spec fn schema_file_views(files: Seq<SchemaFile>) -> Seq<SchemaFileView> {
    files.map_values(|file: SchemaFile| file@)
}

/// The fragments by their places. Of two files of the same place the later one
/// counts, and the first name that gives no place fails them all.
pub open spec fn numbered(files: Seq<SchemaFileView>) -> Result<Map<int, Seq<char>>, Error>
    decreases files.len(),
{
    if files.len() == 0 {
        Ok(Map::empty())
    } else {
        match numbered(files.drop_last()) {
            Err(error) => Err(error),
            Ok(fragments) => match schema_number(files.last().name) {
                Err(error) => Err(error),
                Ok(number) => Ok(fragments.insert(number as int, files.last().content)),
            },
        }
    }
}

/// The fragments of the places below `bound`, in ascending order of place.
pub open spec fn in_order(fragments: Map<int, Seq<char>>, bound: nat) -> Seq<Seq<char>>
    decreases bound,
{
    if bound == 0 {
        Seq::empty()
    } else {
        let below = in_order(fragments, (bound - 1) as nat);
        if fragments.contains_key(bound - 1) {
            below.push(fragments[bound - 1])
        } else {
            below
        }
    }
}

/// The places and fragments that a vector of pairs stands for.
spec fn pair_views(pairs: Seq<(u16, String)>) -> Seq<(int, Seq<char>)> {
    pairs.map_values(|pair: (u16, String)| (pair.0 as int, pair.1@))
}

/// Whether `pairs` lists `fragments` in strictly ascending order of place.
spec fn lists(pairs: Seq<(int, Seq<char>)>, fragments: Map<int, Seq<char>>) -> bool {
    &&& forall|i: int, j: int| 0 <= i < j < pairs.len() ==> (#[trigger] pairs[i]).0 < (
    #[trigger] pairs[j]).0
    &&& forall|i: int|
        0 <= i < pairs.len() ==> fragments.contains_key((#[trigger] pairs[i]).0)
            && fragments[pairs[i].0] == pairs[i].1
    &&& forall|place: int| #[trigger]
        fragments.contains_key(place) ==> exists|i: int|
            0 <= i < pairs.len() && (#[trigger] pairs[i]).0 == place
}

/// The fragments of a sequence of pairs.
spec fn fragments_of(pairs: Seq<(int, Seq<char>)>) -> Seq<Seq<char>> {
    pairs.map_values(|pair: (int, Seq<char>)| pair.1)
}

/// Places that hold no fragment add nothing to the order.
proof fn lemma_in_order_skips(fragments: Map<int, Seq<char>>, from: nat, bound: nat)
    requires
        from <= bound,
        forall|place: int| from <= place < bound ==> !fragments.contains_key(place),
    ensures
        in_order(fragments, bound) == in_order(fragments, from),
    decreases bound,
{
    if from < bound {
        lemma_in_order_skips(fragments, from, (bound - 1) as nat);
    }
}

/// The order below a bound is a matter of the places below it alone.
proof fn lemma_in_order_agrees(a: Map<int, Seq<char>>, b: Map<int, Seq<char>>, bound: nat)
    requires
        forall|place: int|
            #![trigger a.contains_key(place)]
            0 <= place < bound ==> a.contains_key(place) == b.contains_key(place) && (
            a.contains_key(place) ==> a[place] == b[place]),
    ensures
        in_order(a, bound) == in_order(b, bound),
    decreases bound,
{
    if bound > 0 {
        lemma_in_order_agrees(a, b, (bound - 1) as nat);
    }
}

/// A list of the fragments in strictly ascending order of place is their order.
proof fn lemma_listed_in_order(
    pairs: Seq<(int, Seq<char>)>,
    fragments: Map<int, Seq<char>>,
    bound: nat,
)
    requires
        lists(pairs, fragments),
        forall|i: int| 0 <= i < pairs.len() ==> 0 <= (#[trigger] pairs[i]).0 < bound,
    ensures
        in_order(fragments, bound) == fragments_of(pairs),
    decreases pairs.len(),
{
    if pairs.len() == 0 {
        assert forall|place: int| 0 <= place < bound implies !fragments.contains_key(place) by {
            if fragments.contains_key(place) {
                let i = choose|i: int| 0 <= i < pairs.len() && (#[trigger] pairs[i]).0 == place;
                assert(i < pairs.len());
            }
        }
        lemma_in_order_skips(fragments, 0, bound);
    } else {
        let last = pairs.last();
        let rest = pairs.drop_last();
        let others = fragments.remove(last.0);
        assert forall|i: int, j: int| 0 <= i < j < rest.len() implies (#[trigger] rest[i]).0 < (
        #[trigger] rest[j]).0 by {
            assert(rest[i] == pairs[i] && rest[j] == pairs[j]);
        }
        assert forall|i: int| 0 <= i < rest.len() implies others.contains_key(
            (#[trigger] rest[i]).0,
        ) && others[rest[i].0] == rest[i].1 && 0 <= rest[i].0 < last.0 by {
            assert(rest[i] == pairs[i]);
        }
        assert forall|place: int| #[trigger] others.contains_key(place) implies exists|i: int|
            0 <= i < rest.len() && (#[trigger] rest[i]).0 == place by {
            let i = choose|i: int| 0 <= i < pairs.len() && (#[trigger] pairs[i]).0 == place;
            assert(rest[i] == pairs[i]);
        }
        lemma_listed_in_order(rest, others, last.0 as nat);
        lemma_in_order_agrees(fragments, others, last.0 as nat);
        assert forall|place: int| last.0 + 1 <= place < bound implies !fragments.contains_key(
            place,
        ) by {
            if fragments.contains_key(place) {
                let i = choose|i: int| 0 <= i < pairs.len() && (#[trigger] pairs[i]).0 == place;
                assert(pairs[i].0 <= pairs[pairs.len() - 1].0);
            }
        }
        lemma_in_order_skips(fragments, (last.0 + 1) as nat, bound);
    }
}

/// Puts `content` at `place` into the list `pairs`, in place of what was there.
fn place_fragment(pairs: &mut Vec<(u16, String)>, place: u16, content: String)
    requires
        exists|fragments: Map<int, Seq<char>>| lists(pair_views(old(pairs)@), fragments),
    ensures
        forall|fragments: Map<int, Seq<char>>|
            lists(pair_views(old(pairs)@), fragments) ==> lists(
                pair_views(final(pairs)@),
                fragments.insert(place as int, content@),
            ),
{
    let ghost before = pair_views(pairs@);
    let mut at: usize = 0;
    while at < pairs.len() && pairs[at].0 < place
        invariant
            at <= pairs.len(),
            before == pair_views(pairs@),
            forall|i: int| 0 <= i < at ==> (#[trigger] before[i]).0 < place,
        decreases pairs.len() - at,
    {
        at += 1;
    }
    if at < pairs.len() && pairs[at].0 == place {
        pairs.set(at, (place, content));
        proof {
            let after = pair_views(pairs@);
            assert forall|fragments: Map<int, Seq<char>>| lists(before, fragments) implies lists(
                after,
                fragments.insert(place as int, content@),
            ) by {
                let grown = fragments.insert(place as int, content@);
                assert forall|i: int, j: int| 0 <= i < j < after.len() implies (
                #[trigger] after[i]).0 < (#[trigger] after[j]).0 by {
                    assert(before[i].0 < before[j].0);
                }
                assert forall|i: int| 0 <= i < after.len() implies grown.contains_key(
                    (#[trigger] after[i]).0,
                ) && grown[after[i].0] == after[i].1 by {
                    if i != at {
                        if i < at {
                            assert(before[i].0 < before[at as int].0);
                        } else {
                            assert(before[at as int].0 < before[i].0);
                        }
                    }
                }
                assert forall|p: int| #[trigger] grown.contains_key(p) implies exists|i: int|
                    0 <= i < after.len() && (#[trigger] after[i]).0 == p by {
                    if p == place {
                        assert(after[at as int].0 == p);
                    } else {
                        let i = choose|i: int|
                            0 <= i < before.len() && (#[trigger] before[i]).0 == p;
                        assert(after[i].0 == p);
                    }
                }
            }
        }
    } else {
        pairs.insert(at, (place, content));
        proof {
            let after = pair_views(pairs@);
            assert forall|fragments: Map<int, Seq<char>>| lists(before, fragments) implies lists(
                after,
                fragments.insert(place as int, content@),
            ) by {
                let grown = fragments.insert(place as int, content@);
                assert forall|i: int| 0 <= i < after.len() implies (#[trigger] after[i]) == (if i
                    < at {
                    before[i]
                } else if i == at {
                    (place as int, content@)
                } else {
                    before[i - 1]
                }) by {}
                assert forall|i: int| at <= i < before.len() implies place < (
                #[trigger] before[i]).0 by {
                    if i > at {
                        assert(before[at as int].0 < before[i].0);
                    }
                }
                assert forall|i: int, j: int| 0 <= i < j < after.len() implies (
                #[trigger] after[i]).0 < (#[trigger] after[j]).0 by {
                    let a = if i < at { i } else { i - 1 };
                    let b = if j < at { j } else { j - 1 };
                    if i != at && j != at {
                        assert(before[a].0 < before[b].0);
                    } else if i == at {
                        assert(place < before[b].0);
                    } else {
                        assert(before[a].0 < place);
                    }
                }
                assert forall|i: int| 0 <= i < after.len() implies grown.contains_key(
                    (#[trigger] after[i]).0,
                ) && grown[after[i].0] == after[i].1 by {
                    if i != at {
                        let a = if i < at { i } else { i - 1 };
                        if a < at {
                            assert(before[a].0 < place);
                        } else {
                            assert(place < before[a].0);
                        }
                    }
                }
                assert forall|p: int| #[trigger] grown.contains_key(p) implies exists|i: int|
                    0 <= i < after.len() && (#[trigger] after[i]).0 == p by {
                    if p == place {
                        assert(after[at as int].0 == p);
                    } else {
                        let i = choose|i: int|
                            0 <= i < before.len() && (#[trigger] before[i]).0 == p;
                        let k = if i < at { i } else { i + 1 };
                        assert(after[k].0 == p);
                    }
                }
            }
        }
    }
}

/// The fragments of the schema files in their order of application, or `None`
/// where there is no file. The places come from the files' names; see
/// [`numbered`] for two files of one place and for a name that gives none.
pub fn read_schemas(files: Vec<SchemaFile>) -> (read: Result<Option<Vec<String>>, Error>)
    ensures
        match numbered(schema_file_views(files@)) {
            Err(error) => read == Err::<Option<Vec<String>>, Error>(error),
            Ok(fragments) => read matches Ok(found) && match found {
                Some(schemas) => files@.len() > 0 && texts(schemas@) == in_order(fragments, 65536),
                None => files@.len() == 0,
            },
        },
{
    let ghost views = schema_file_views(files@);
    let ghost mut fragments: Map<int, Seq<char>> = Map::empty();
    let mut pairs: Vec<(u16, String)> = Vec::new();
    let empty = files.len() == 0;
    for file in it: files
        invariant
            it.seq() == files@,
            views == schema_file_views(files@),
            numbered(views.take(it.index() as int)) == Ok::<Map<int, Seq<char>>, Error>(fragments),
            lists(pair_views(pairs@), fragments),
    {
        proof {
            assert(views.take(it.index() + 1).drop_last() =~= views.take(it.index() as int));
        }
        match filename_u16(file.name.as_str()) {
            Err(error) => {
                proof {
                    lemma_numbered_of_prefix(views, it.index() + 1);
                }
                return Err(error);
            },
            Ok(place) => {
                place_fragment(&mut pairs, place, file.content);
                proof {
                    fragments = fragments.insert(place as int, file.content@);
                }
            },
        }
    }
    proof {
        assert(views.take(files@.len() as int) =~= views);
        lemma_listed_in_order(pair_views(pairs@), fragments, 65536);
    }
    if empty {
        return Ok(None);
    }
    let mut schemas: Vec<String> = Vec::new();
    for pair in it: pairs
        invariant
            it.seq() == pairs@,
            texts(schemas@) == fragments_of(pair_views(pairs@)).take(it.index() as int),
    {
        let ghost before = texts(schemas@);
        schemas.push(pair.1);
        assert(texts(schemas@) =~= before.push(pair.1@));
    }
    Ok(Some(schemas))
}

/// A name that gives no place fails the files read so far and all of them alike.
pub proof fn lemma_numbered_of_prefix(files: Seq<SchemaFileView>, len: int)
    requires
        0 <= len <= files.len(),
    ensures
        numbered(files.take(len)) matches Err(error) ==> numbered(files) == Err::<
            Map<int, Seq<char>>,
            Error,
        >(error),
    decreases files.len() - len,
{
    if len < files.len() {
        assert(files.take(len + 1).drop_last() =~= files.take(len));
        lemma_numbered_of_prefix(files, len + 1);
    } else {
        assert(files.take(len) =~= files);
    }
}

} // verus!
