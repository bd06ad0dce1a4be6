use vstd::prelude::*;
use crate::label::{
    Label,
    LabelError,
    Unnormaliser,
    can_unnormalise_label,
    lemma_read_label_converts,
    parse_line,
    unnormalised,
};
use crate::text::{chars_of, free_of, join_spec, lemma_split_join, split_chars, split_spec};

verus! {

/// The labels of an annotation text, one for each line, in line order.
pub struct Labels {
    labels: Vec<Label>,
}

impl View for Labels {
    type V = Seq<Label>;

    closed spec fn view(&self) -> Seq<Label> {
        self.labels@
    }
}

/// The lines of a text: the pieces between newline characters.
pub open spec fn lines_of(text: Seq<char>) -> Seq<Seq<char>> {
    split_spec(text, '\n')
}

/// Every line of `text` reads as a label.
pub open spec fn text_ok(text: Seq<char>) -> bool {
    forall|i: int| 0 <= i < lines_of(text).len() ==> (#[trigger] parse_line(lines_of(text)[i])) is Ok
}

/// The labels that the lines of `text` read as, in order.
pub open spec fn labels_of(text: Seq<char>) -> Seq<Label> {
    lines_of(text).map_values(|l: Seq<char>| parse_line(l)->Ok_0)
}

/// Line `i` of `text` is the first that does not read, and gives `e`.
pub open spec fn first_error_at(text: Seq<char>, i: int, e: LabelError) -> bool {
    &&& 0 <= i < lines_of(text).len()
    &&& parse_line(lines_of(text)[i]) == Err::<Label, LabelError>(e)
    &&& forall|j: int| 0 <= j < i ==> (#[trigger] parse_line(lines_of(text)[j])) is Ok
}

impl Labels {
    /// Reads every line of `text` as a label; the first line that does not
    /// read ends the reading with its error.
    pub fn parse(text: &str) -> (r: Result<Labels, LabelError>)
        ensures
            match r {
                Ok(ls) => text_ok(text@) && ls@ == labels_of(text@),
                Err(e) => exists|i: int| first_error_at(text@, i, e),
            },
    {
        let chars = chars_of(text);
        let lines = split_chars(&chars, '\n');
        let ghost lv = lines@.map_values(|p: Vec<char>| p@);
        assert(lv == lines_of(text@));
        let mut out: Vec<Label> = Vec::new();
        let mut i: usize = 0;
        while i < lines.len()
            invariant
                i <= lines@.len(),
                lv == lines_of(text@),
                lv.len() == lines@.len(),
                forall|k: int| 0 <= k < lines@.len() ==> #[trigger] lv[k] == lines@[k]@,
                forall|j: int| 0 <= j < i ==> (#[trigger] parse_line(lv[j])) is Ok,
                out@ == lv.take(i as int).map_values(|l: Seq<char>| parse_line(l)->Ok_0),
            decreases lines@.len() - i,
        {
            match Label::parse_chars(&lines[i]) {
                Ok(l) => {
                    out.push(l);
                    assert(out@ =~= lv.take(i + 1).map_values(|l: Seq<char>| parse_line(l)->Ok_0));
                },
                Err(e) => {
                    assert(first_error_at(text@, i as int, e));
                    return Err(e);
                },
            }
            i += 1;
        }
        assert(lv.take(i as int) =~= lv);
        Ok(Labels { labels: out })
    }

    /// The labels, in order.
    pub fn as_slice(&self) -> (r: &[Label])
        ensures
            r@ == self@,
    {
        self.labels.as_slice()
    }

    /// The number of labels.
    pub fn len(&self) -> (r: usize)
        ensures
            r == self@.len(),
    {
        self.labels.len()
    }

    /// Whether `unnormalise` can convert every label for `dimensions`.
    pub fn can_unnormalise_for(&self, dimensions: (u32, u32)) -> (r: bool)
        ensures
            r == self.can_unnormalise(dimensions),
    {
        let mut i: usize = 0;
        while i < self.labels.len()
            invariant
                i <= self@.len(),
                forall|j: int| 0 <= j < i ==> can_unnormalise_label(#[trigger] self@[j], dimensions),
            decreases self@.len() - i,
        {
            if !self.labels[i].can_unnormalise_for(dimensions) {
                return false;
            }
            i += 1;
        }
        true
    }
}

impl std::ops::Deref for Labels {
    type Target = [Label];

    fn deref(&self) -> (r: &[Label])
        ensures
            r@ == self@,
    {
        self.as_slice()
    }
}

impl Unnormaliser for Labels {
    open spec fn can_unnormalise(&self, dimensions: (u32, u32)) -> bool {
        forall|i: int| 0 <= i < self@.len() ==> can_unnormalise_label(#[trigger] self@[i], dimensions)
    }

    open spec fn is_unnormalised(&self, dimensions: (u32, u32), r: Labels) -> bool {
        r@ == self@.map_values(|l: Label| unnormalised(l, dimensions))
    }

    fn unnormalise(&self, dimensions: (u32, u32)) -> (r: Labels) {
        let mut out: Vec<Label> = Vec::new();
        let mut i: usize = 0;
        while i < self.labels.len()
            invariant
                i <= self@.len(),
                self.can_unnormalise(dimensions),
                out@ == self@.take(i as int).map_values(|l: Label| unnormalised(l, dimensions)),
            decreases self@.len() - i,
        {
            let l = self.labels[i].unnormalise(dimensions);
            out.push(l);
            assert(out@ =~= self@.take(i + 1).map_values(|l: Label| unnormalised(l, dimensions)));
            i += 1;
        }
        assert(self@.take(i as int) =~= self@);
        Labels { labels: out }
    }
}


/// Lines that each read as a label, joined by newlines, read as those labels,
/// as many as there are lines, in the same order.
pub proof fn lemma_lines_in_order(lines: Seq<Seq<char>>)
    requires
        lines.len() >= 1,
        forall|i: int| 0 <= i < lines.len() ==> free_of(#[trigger] lines[i], '\n'),
        forall|i: int| 0 <= i < lines.len() ==> (#[trigger] parse_line(lines[i])) is Ok,
    ensures
        text_ok(join_spec(lines, '\n')),
        labels_of(join_spec(lines, '\n')).len() == lines.len(),
        forall|i: int|
            0 <= i < lines.len() ==> Ok::<Label, LabelError>(
                #[trigger] labels_of(join_spec(lines, '\n'))[i],
            ) == parse_line(lines[i]),
{
    lemma_split_join(lines, '\n');
}


/// The labels read from a text can be converted for an image of any size.
pub proof fn lemma_read_labels_convert(text: Seq<char>, dimensions: (u32, u32))
    requires
        text_ok(text),
    ensures
        forall|i: int|
            0 <= i < labels_of(text).len() ==> can_unnormalise_label(
                #[trigger] labels_of(text)[i],
                dimensions,
            ),
{
    assert forall|i: int| 0 <= i < labels_of(text).len() implies can_unnormalise_label(
        #[trigger] labels_of(text)[i],
        dimensions,
    ) by {
        assert(parse_line(lines_of(text)[i]) is Ok);
        lemma_read_label_converts(lines_of(text)[i], dimensions);
    }
}

} // verus!
