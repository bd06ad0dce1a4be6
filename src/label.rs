use vstd::prelude::*;
use crate::number::{
    Decimal,
    can_scale,
    decimal_ok,
    decimal_of,
    integer_value,
    lemma_read_scales,
    parse_decimal,
    parse_small_int,
    scaled,
    small_int_ok,
};
use crate::text::{chars_of, split_chars, split_spec};

verus! {

/// One annotation: a class and a box whose centre and extent are given as
/// fractions of the image, with an optional confidence and track id.
#[derive(Clone, Copy, Debug, PartialEq, Eq, Structural)]
pub struct Label {
    pub label_index: i8,
    pub x_centre: Decimal,
    pub y_centre: Decimal,
    pub width: Decimal,
    pub height: Decimal,
    pub probability: Option<Decimal>,
    pub object_id: Option<i8>,
}

/// Why a line is not a label.
#[derive(Clone, Copy, Debug, PartialEq, Eq, Structural)]
pub enum LabelError {
    /// The line has fewer than the five fields that are required.
    TooFewFields,
    /// The field at `index` does not read as the number it must hold.
    BadField { index: usize },
}

/// A value that can be taken from fractions of an image to pixels of an image
/// of given width and height.
pub trait Unnormaliser: Sized {
    /// Every value that the conversion computes fits its type.
    spec fn can_unnormalise(&self, dimensions: (u32, u32)) -> bool;

    /// `r` is this value converted to pixels of an image of `dimensions`.
    spec fn is_unnormalised(&self, dimensions: (u32, u32), r: Self) -> bool;

    fn unnormalise(&self, dimensions: (u32, u32)) -> (r: Self)
        requires
            self.can_unnormalise(dimensions),
        ensures
            self.is_unnormalised(dimensions, r),
    ;
}

/// The fields of a line: the pieces between single spaces.
pub open spec fn fields_of(line: Seq<char>) -> Seq<Seq<char>> {
    split_spec(line, ' ')
}

/// Field `i` holds an `i8` for the class (0) and the track id (6), and a
/// decimal number otherwise.
pub open spec fn field_ok(f: Seq<char>, i: int) -> bool {
    if i == 0 || i == 6 {
        small_int_ok(f)
    } else {
        decimal_ok(f)
    }
}

/// The first of the fields from `i` up to the seventh that does not read.
pub open spec fn first_bad_field(f: Seq<Seq<char>>, i: int) -> Option<int>
    decreases 7 - i,
{
    if i < 0 || i >= 7 || i >= f.len() {
        None
    } else if !field_ok(f[i], i) {
        Some(i)
    } else {
        first_bad_field(f, i + 1)
    }
}

/// The label that readable fields describe; fields past the seventh are ignored.
pub open spec fn label_of(f: Seq<Seq<char>>) -> Label {
    Label {
        label_index: integer_value(f[0]) as i8,
        x_centre: decimal_of(f[1]),
        y_centre: decimal_of(f[2]),
        width: decimal_of(f[3]),
        height: decimal_of(f[4]),
        probability: if f.len() > 5 {
            Some(decimal_of(f[5]))
        } else {
            None
        },
        object_id: if f.len() > 6 {
            Some(integer_value(f[6]) as i8)
        } else {
            None
        },
    }
}

/// What reading one line gives.
pub open spec fn parse_line(line: Seq<char>) -> Result<Label, LabelError> {
    let f = fields_of(line);
    if f.len() < 5 {
        Err(LabelError::TooFewFields)
    } else {
        match first_bad_field(f, 0) {
            Some(i) => Err(LabelError::BadField { index: i as usize }),
            None => Ok(label_of(f)),
        }
    }
}

/// The label converted to pixels of an image `dimensions.0` wide and
/// `dimensions.1` high: the horizontal values times the width, the vertical
/// ones times the height, the rest unchanged.
pub open spec fn unnormalised(l: Label, dimensions: (u32, u32)) -> Label {
    Label {
        x_centre: scaled(l.x_centre, dimensions.0),
        y_centre: scaled(l.y_centre, dimensions.1),
        width: scaled(l.width, dimensions.0),
        height: scaled(l.height, dimensions.1),
        ..l
    }
}

pub open spec fn can_unnormalise_label(l: Label, dimensions: (u32, u32)) -> bool {
    &&& can_scale(l.x_centre, dimensions.0)
    &&& can_scale(l.y_centre, dimensions.1)
    &&& can_scale(l.width, dimensions.0)
    &&& can_scale(l.height, dimensions.1)
}

impl Label {
    /// Reads one line of the form
    /// `class x_centre y_centre width height [confidence [track_id]]`.
    pub fn parse(line: &str) -> (r: Result<Label, LabelError>)
        ensures
            r == parse_line(line@),
    {
        let chars = chars_of(line);
        Label::parse_chars(&chars)
    }

    /// Reads one line given as its characters.
    pub fn parse_chars(line: &Vec<char>) -> (r: Result<Label, LabelError>)
        ensures
            r == parse_line(line@),
    {
        proof {
            reveal_with_fuel(first_bad_field, 8);
        }
        let f = split_chars(line, ' ');
        let ghost fv = f@.map_values(|p: Vec<char>| p@);
        assert(fv == fields_of(line@));
        assert(forall|i: int| 0 <= i < f@.len() ==> #[trigger] fv[i] == f@[i]@);
        let n = f.len();
        if n < 5 {
            return Err(LabelError::TooFewFields);
        }
        let label_index = match parse_small_int(&f[0]) {
            Some(v) => v,
            None => {
                return Err(LabelError::BadField { index: 0 });
            },
        };
        let x_centre = match parse_decimal(&f[1]) {
            Some(v) => v,
            None => {
                return Err(LabelError::BadField { index: 1 });
            },
        };
        let y_centre = match parse_decimal(&f[2]) {
            Some(v) => v,
            None => {
                return Err(LabelError::BadField { index: 2 });
            },
        };
        let width = match parse_decimal(&f[3]) {
            Some(v) => v,
            None => {
                return Err(LabelError::BadField { index: 3 });
            },
        };
        let height = match parse_decimal(&f[4]) {
            Some(v) => v,
            None => {
                return Err(LabelError::BadField { index: 4 });
            },
        };
        let probability = if n > 5 {
            match parse_decimal(&f[5]) {
                Some(v) => Some(v),
                None => {
                    return Err(LabelError::BadField { index: 5 });
                },
            }
        } else {
            None
        };
        let object_id = if n > 6 {
            match parse_small_int(&f[6]) {
                Some(v) => Some(v),
                None => {
                    return Err(LabelError::BadField { index: 6 });
                },
            }
        } else {
            None
        };
        Ok(Label { label_index, x_centre, y_centre, width, height, probability, object_id })
    }

    /// Whether `unnormalise` can convert this label for `dimensions`.
    pub fn can_unnormalise_for(&self, dimensions: (u32, u32)) -> (r: bool)
        ensures
            r == can_unnormalise_label(*self, dimensions),
    {
        self.x_centre.can_scale_by(dimensions.0) && self.y_centre.can_scale_by(dimensions.1)
            && self.width.can_scale_by(dimensions.0) && self.height.can_scale_by(dimensions.1)
    }
}

impl Unnormaliser for Label {
    open spec fn can_unnormalise(&self, dimensions: (u32, u32)) -> bool {
        can_unnormalise_label(*self, dimensions)
    }

    open spec fn is_unnormalised(&self, dimensions: (u32, u32), r: Label) -> bool {
        r == unnormalised(*self, dimensions)
    }

    fn unnormalise(&self, dimensions: (u32, u32)) -> (r: Label) {
        Label {
            label_index: self.label_index,
            x_centre: self.x_centre.scale(dimensions.0),
            y_centre: self.y_centre.scale(dimensions.1),
            width: self.width.scale(dimensions.0),
            height: self.height.scale(dimensions.1),
            probability: self.probability,
            object_id: self.object_id,
        }
    }
}


/// Reading a line of five readable fields gives the class and the four box
/// values that the fields write, with no confidence and no track id.
pub proof fn lemma_five_fields(line: Seq<char>)
    requires
        fields_of(line).len() == 5,
        forall|i: int| 0 <= i < 5 ==> field_ok(#[trigger] fields_of(line)[i], i),
    ensures
        ({
            let f = fields_of(line);
            parse_line(line) == Ok::<Label, LabelError>(
                Label {
                    label_index: integer_value(f[0]) as i8,
                    x_centre: decimal_of(f[1]),
                    y_centre: decimal_of(f[2]),
                    width: decimal_of(f[3]),
                    height: decimal_of(f[4]),
                    probability: None,
                    object_id: None,
                },
            )
        }),
{
    reveal_with_fuel(first_bad_field, 8);
    let f = fields_of(line);
    assert(field_ok(f[0], 0) && field_ok(f[1], 1) && field_ok(f[2], 2) && field_ok(f[3], 3));
    assert(field_ok(f[4], 4));
}

proof fn lemma_no_bad_field(f: Seq<Seq<char>>, i: int)
    requires
        0 <= i,
        forall|j: int| i <= j < 7 && j < f.len() ==> field_ok(#[trigger] f[j], j),
    ensures
        first_bad_field(f, i) is None,
    decreases 7 - i,
{
    if i < 7 && i < f.len() {
        lemma_no_bad_field(f, i + 1);
    }
}

proof fn lemma_some_bad_field(f: Seq<Seq<char>>, i: int, k: int)
    requires
        0 <= i <= k < 7,
        k < f.len(),
        !field_ok(f[k], k),
    ensures
        first_bad_field(f, i) is Some,
    decreases 7 - i,
{
    if i < k && field_ok(f[i], i) {
        lemma_some_bad_field(f, i + 1, k);
    }
}

/// A line whose first seven fields, or all of them where there are fewer, read
/// gives a label; it holds a confidence exactly when the line has a sixth
/// field, and a track id exactly when it has a seventh, each read from that
/// field.
pub proof fn lemma_optional_fields(line: Seq<char>)
    requires
        fields_of(line).len() >= 5,
        forall|i: int| 0 <= i < 7 && i < fields_of(line).len() ==> field_ok(#[trigger] fields_of(line)[i], i),
    ensures
        ({
            let f = fields_of(line);
            &&& parse_line(line) is Ok
            &&& parse_line(line)->Ok_0 == label_of(f)
            &&& (parse_line(line)->Ok_0.probability is Some <==> f.len() >= 6)
            &&& (f.len() >= 6 ==> parse_line(line)->Ok_0.probability == Some(decimal_of(f[5])))
            &&& (parse_line(line)->Ok_0.object_id is Some <==> f.len() >= 7)
            &&& (f.len() >= 7 ==> parse_line(line)->Ok_0.object_id == Some(integer_value(f[6]) as i8))
        }),
{
    lemma_no_bad_field(fields_of(line), 0);
}

/// Fields past the seventh play no part: two lines with the same first seven
/// fields read the same.
pub proof fn lemma_extra_fields_ignored(a: Seq<char>, b: Seq<char>)
    requires
        fields_of(a).len() >= 7,
        fields_of(b).len() >= 7,
        fields_of(a).take(7) == fields_of(b).take(7),
    ensures
        parse_line(a) == parse_line(b),
{
    reveal_with_fuel(first_bad_field, 8);
    let fa = fields_of(a);
    let fb = fields_of(b);
    assert forall|i: int| 0 <= i < 7 implies fa[i] == fb[i] by {
        assert(fa.take(7)[i] == fb.take(7)[i]);
    }
}

/// A line with fewer than five fields, or with a field among its first seven
/// that does not read as the number it must hold, does not read as a label.
pub proof fn lemma_malformed(line: Seq<char>, k: int)
    requires
        fields_of(line).len() < 5 || (0 <= k < 7 && k < fields_of(line).len() && !field_ok(
            fields_of(line)[k],
            k,
        )),
    ensures
        parse_line(line) is Err,
{
    if fields_of(line).len() >= 5 {
        lemma_some_bad_field(fields_of(line), 0, k);
    }
}

/// Converting for an image of no width and no height gives a zero box, and
/// is always possible.
pub proof fn lemma_unnormalise_zero(l: Label)
    ensures
        can_unnormalise_label(l, (0, 0)),
        unnormalised(l, (0, 0)).x_centre.mantissa == 0,
        unnormalised(l, (0, 0)).y_centre.mantissa == 0,
        unnormalised(l, (0, 0)).width.mantissa == 0,
        unnormalised(l, (0, 0)).height.mantissa == 0,
{
}


/// Every label read from a line can be converted for an image of any size.
pub proof fn lemma_read_label_converts(line: Seq<char>, dimensions: (u32, u32))
    requires
        parse_line(line) is Ok,
    ensures
        can_unnormalise_label(parse_line(line)->Ok_0, dimensions),
{
    let f = fields_of(line);
    if first_bad_field(f, 0) is Some {
    } else {
        reveal_with_fuel(first_bad_field, 8);
        assert(field_ok(f[1], 1) && field_ok(f[2], 2) && field_ok(f[3], 3) && field_ok(f[4], 4));
        lemma_read_scales(f[1], dimensions.0);
        lemma_read_scales(f[2], dimensions.1);
        lemma_read_scales(f[3], dimensions.0);
        lemma_read_scales(f[4], dimensions.1);
    }
}

} // verus!
