//! A simple interface for writing GeoJSON feature collections as text.

use vstd::prelude::*;
use vstd::string::*;

use crate::geo::GeoPoint;

verus! {

/// Write feature collections.
pub struct GeoJsonWriter {
    text: String,
    is_first_feature: bool,
    /// A feature was started and is not finished yet.
    open: bool,
}

/// Writes the properties of one feature. As long as it lives, nothing else
/// can be written to the collection.
pub struct FeatureWriter<'a> {
    pub gjwriter: &'a mut GeoJsonWriter,
    pub is_first: bool,
}

/// What a collection starts with.
pub open spec fn collection_head() -> Seq<char> {
    "{\"type\": \"FeatureCollection\", \"features\": ["@
}

/// What a collection ends with.
pub open spec fn collection_tail() -> Seq<char> {
    "\n]}"@
}

/// What a line string starts with, up to its coordinates.
pub open spec fn line_head() -> Seq<char> {
    "\n{\"type\": \"Feature\", \"geometry\": {\"type\": \"LineString\", \"coordinates\": ["@
}

/// What follows the coordinates of a line string, up to its properties.
pub open spec fn line_tail() -> Seq<char> {
    "]}, \"properties\": {"@
}

/// What a point starts with, up to its coordinates.
pub open spec fn point_head() -> Seq<char> {
    "\n{\"type\": \"Feature\", \"geometry\": {\"type\": \"Point\", \"coordinates\": "@
}

/// What follows the coordinates of a point, up to its properties.
pub open spec fn point_tail() -> Seq<char> {
    "}, \"properties\": {"@
}

/// What a feature ends with.
pub open spec fn feature_tail() -> Seq<char> {
    "}}"@
}

/// One decimal digit.
pub open spec fn digit(d: int) -> Seq<char> {
    if d == 0 {
        "0"@
    } else if d == 1 {
        "1"@
    } else if d == 2 {
        "2"@
    } else if d == 3 {
        "3"@
    } else if d == 4 {
        "4"@
    } else if d == 5 {
        "5"@
    } else if d == 6 {
        "6"@
    } else if d == 7 {
        "7"@
    } else if d == 8 {
        "8"@
    } else {
        "9"@
    }
}

/// A number in decimal digits, without leading zeros.
pub open spec fn decimal(n: nat) -> Seq<char>
    decreases n,
{
    if n < 10 {
        digit(n as int)
    } else {
        decimal(n / 10) + digit((n % 10) as int)
    }
}

/// A number below a million in six decimal digits.
pub open spec fn six_digits(m: nat) -> Seq<char> {
    digit((m / 100000 % 10) as int) + digit((m / 10000 % 10) as int) + digit(
        (m / 1000 % 10) as int,
    ) + digit((m / 100 % 10) as int) + digit((m / 10 % 10) as int) + digit((m % 10) as int)
}

/// A number of millionths as a decimal fraction with six digits after the
/// point.
pub open spec fn fixed6(raw: int) -> Seq<char> {
    if raw < 0 {
        "-"@ + decimal(((-raw) / 1000000) as nat) + "."@ + six_digits(((-raw) % 1000000) as nat)
    } else {
        decimal((raw / 1000000) as nat) + "."@ + six_digits((raw % 1000000) as nat)
    }
}

/// A position: longitude first, then latitude, both in degrees.
pub open spec fn position(p: GeoPoint) -> Seq<char> {
    "["@ + fixed6(p.raw_lon as int) + ", "@ + fixed6(p.raw_lat as int) + "]"@
}

/// A list of positions.
pub open spec fn positions(coords: Seq<GeoPoint>) -> Seq<char>
    decreases coords.len(),
{
    if coords.len() == 0 {
        Seq::empty()
    } else if coords.len() == 1 {
        position(coords[0])
    } else {
        positions(coords.drop_last()) + ","@ + position(coords.last())
    }
}

/// A property: its name in quotes, and its value as it stands.
pub open spec fn property(key: Seq<char>, value: Seq<char>) -> Seq<char> {
    "\""@ + key + "\": "@ + value
}

fn push_digit(out: &mut String, d: u64)
    requires
        d < 10,
    ensures
        final(out)@ == old(out)@ + digit(d as int),
{
    if d == 0 {
        out.append("0");
    } else if d == 1 {
        out.append("1");
    } else if d == 2 {
        out.append("2");
    } else if d == 3 {
        out.append("3");
    } else if d == 4 {
        out.append("4");
    } else if d == 5 {
        out.append("5");
    } else if d == 6 {
        out.append("6");
    } else if d == 7 {
        out.append("7");
    } else if d == 8 {
        out.append("8");
    } else {
        out.append("9");
    }
}

/// Appends `n` in decimal digits.
pub fn push_decimal(out: &mut String, n: u64)
    ensures
        final(out)@ == old(out)@ + decimal(n as nat),
    decreases n,
{
    if n >= 10 {
        push_decimal(out, n / 10);
        push_digit(out, n % 10);
        assert(out@ =~= old(out)@ + decimal(n as nat));
    } else {
        push_digit(out, n);
    }
}

/// `n` in decimal digits.
pub fn format_number(n: u64) -> (r: String)
    ensures
        r@ == decimal(n as nat),
{
    let mut out = String::new();
    push_decimal(&mut out, n);
    assert(out@ =~= decimal(n as nat));
    out
}

fn push_six_digits(out: &mut String, part: u64)
    requires
        part < 1000000,
    ensures
        final(out)@ == old(out)@ + six_digits(part as nat),
{
    let d5: u64 = part / 100000 % 10;
    let d4: u64 = part / 10000 % 10;
    let d3: u64 = part / 1000 % 10;
    let d2: u64 = part / 100 % 10;
    let d1: u64 = part / 10 % 10;
    let d0: u64 = part % 10;
    push_digit(out, d5);
    push_digit(out, d4);
    push_digit(out, d3);
    push_digit(out, d2);
    push_digit(out, d1);
    push_digit(out, d0);
    assert(out@ =~= old(out)@ + (digit(d5 as int) + digit(d4 as int) + digit(d3 as int) + digit(
        d2 as int,
    ) + digit(d1 as int) + digit(d0 as int)));
}

fn push_fixed6(out: &mut String, raw: i32)
    ensures
        final(out)@ == old(out)@ + fixed6(raw as int),
{
    if raw < 0 {
        let size: u64 = (-(raw as i64)) as u64;
        out.append("-");
        push_decimal(out, size / 1000000);
        out.append(".");
        push_six_digits(out, size % 1000000);
        assert(out@ =~= old(out)@ + ("-"@ + decimal((size / 1000000) as nat) + "."@ + six_digits(
            (size % 1000000) as nat,
        )));
    } else {
        let size: u64 = raw as u64;
        push_decimal(out, size / 1000000);
        out.append(".");
        push_six_digits(out, size % 1000000);
        assert(out@ =~= old(out)@ + (decimal((size / 1000000) as nat) + "."@ + six_digits(
            (size % 1000000) as nat,
        )));
    }
}

fn push_position(out: &mut String, p: GeoPoint)
    ensures
        final(out)@ == old(out)@ + position(p),
{
    out.append("[");
    push_fixed6(out, p.raw_lon);
    out.append(", ");
    push_fixed6(out, p.raw_lat);
    out.append("]");
    assert(out@ =~= old(out)@ + position(p));
}

impl GeoJsonWriter {
    /// The text written so far.
    pub closed spec fn text(&self) -> Seq<char> {
        self.text@
    }

    /// No feature was written yet.
    pub closed spec fn is_first(&self) -> bool {
        self.is_first_feature
    }

    /// A feature was started and is not finished yet.
    pub closed spec fn open(&self) -> bool {
        self.open
    }

    /// What is written before a new feature or the end of the collection: the
    /// end of a feature that was left unfinished.
    pub open spec fn closing(&self) -> Seq<char> {
        if self.open() {
            feature_tail()
        } else {
            Seq::empty()
        }
    }

    /// What is written between the text so far and a new feature.
    pub open spec fn lead(&self) -> Seq<char> {
        if self.is_first() {
            self.closing()
        } else {
            self.closing() + ","@
        }
    }

    /// Starts a collection.
    pub fn new() -> (w: Self)
        ensures
            w.text() == collection_head(),
            w.is_first(),
            !w.open(),
    {
        let mut text = String::new();
        text.append("{\"type\": \"FeatureCollection\", \"features\": [");
        assert(text@ =~= collection_head());
        GeoJsonWriter { text, is_first_feature: true, open: false }
    }

    /// Writes what stands between the text so far and a new feature.
    fn start_feature(&mut self)
        ensures
            final(self).text@ == old(self).text@ + old(self).lead(),
            !final(self).is_first_feature,
            final(self).open,
    {
        if self.open {
            self.text.append("}}");
        }
        if self.is_first_feature {
            self.is_first_feature = false;
        } else {
            self.text.append(",");
        }
        self.open = true;
        assert(self.text@ =~= old(self).text@ + old(self).lead());
    }

    /// Starts a feature that is a line through `coords`. Its properties are
    /// written through what is returned.
    #[verifier::rlimit(50)]
    pub fn add_line_string<'a>(&'a mut self, coords: &[GeoPoint]) -> (fw: FeatureWriter<'a>)
        ensures
            fw.gjwriter.text() == old(self).text() + old(self).lead() + line_head() + positions(
                coords@,
            ) + line_tail(),
            fw.gjwriter.open(),
            !fw.gjwriter.is_first(),
            fw.is_first,
            *final(self) == *final(fw.gjwriter),
    {
        self.start_feature();
        self.text.append(
            "\n{\"type\": \"Feature\", \"geometry\": {\"type\": \"LineString\", \"coordinates\": [",
        );
        let ghost start = self.text@;
        let mut i: usize = 0;
        while i < coords.len()
            invariant
                i <= coords@.len(),
                self.text@ == start + positions(coords@.take(i as int)),
                self.open,
                !self.is_first_feature,
            decreases coords.len() - i,
        {
            proof {
                assert(coords@.take(i + 1).drop_last() =~= coords@.take(i as int));
                assert(coords@.take(i + 1).last() == coords@[i as int]);
                assert(coords@.take(i + 1)[0] == coords@[0]);
            }
            if i > 0 {
                self.text.append(",");
            }
            push_position(&mut self.text, coords[i]);
            proof {
                assert(self.text@ =~= start + positions(coords@.take(i + 1)));
            }
            i += 1;
        }
        proof {
            assert(coords@.take(i as int) =~= coords@);
        }
        self.text.append("]}, \"properties\": {");
        assert(self.text@ =~= old(self).text() + old(self).lead() + line_head() + positions(coords@)
            + line_tail());
        FeatureWriter { gjwriter: self, is_first: true }
    }

    /// Starts a feature that is the point `coord`. Its properties are written
    /// through what is returned.
    pub fn add_point<'a>(&'a mut self, coord: GeoPoint) -> (fw: FeatureWriter<'a>)
        ensures
            fw.gjwriter.text() == old(self).text() + old(self).lead() + point_head() + position(
                coord,
            ) + point_tail(),
            fw.gjwriter.open(),
            !fw.gjwriter.is_first(),
            fw.is_first,
            *final(self) == *final(fw.gjwriter),
    {
        self.start_feature();
        self.text.append(
            "\n{\"type\": \"Feature\", \"geometry\": {\"type\": \"Point\", \"coordinates\": ",
        );
        push_position(&mut self.text, coord);
        self.text.append("}, \"properties\": {");
        assert(self.text@ =~= old(self).text() + old(self).lead() + point_head() + position(coord)
            + point_tail());
        FeatureWriter { gjwriter: self, is_first: true }
    }

    /// Ends the collection and gives its text.
    pub fn finish(self) -> (r: String)
        ensures
            r@ == self.text() + self.closing() + collection_tail(),
    {
        let mut text = self.text;
        if self.open {
            text.append("}}");
        }
        text.append("\n]}");
        assert(text@ =~= self.text() + self.closing() + collection_tail());
        text
    }
}

impl<'a> FeatureWriter<'a> {
    /// What is written between the text so far and a new property.
    pub open spec fn lead(&self) -> Seq<char> {
        if self.is_first {
            Seq::empty()
        } else {
            ","@
        }
    }

    /// Writes a property of the feature. The value is written as it is given:
    /// a number in digits, a text in quotes.
    pub fn add_property(&mut self, key: &str, value: &str)
        ensures
            final(self).gjwriter.text() == old(self).gjwriter.text() + old(self).lead() + property(
                key@,
                value@,
            ),
            final(self).gjwriter.open() == old(self).gjwriter.open(),
            final(self).gjwriter.is_first() == old(self).gjwriter.is_first(),
            !final(self).is_first,
            *final(final(self).gjwriter) == *final(old(self).gjwriter),
    {
        if self.is_first {
            self.is_first = false;
        } else {
            self.gjwriter.text.append(",");
        }
        self.gjwriter.text.append("\"");
        self.gjwriter.text.append(key);
        self.gjwriter.text.append("\": ");
        self.gjwriter.text.append(value);
        assert(self.gjwriter.text@ =~= old(self).gjwriter.text() + old(self).lead() + property(
            key@,
            value@,
        ));
    }

    /// Ends the feature.
    pub fn finish(self)
        ensures
            final(self.gjwriter).text() == old(self.gjwriter).text() + feature_tail(),
            !final(self.gjwriter).open(),
            final(self.gjwriter).is_first() == old(self.gjwriter).is_first(),
    {
        self.gjwriter.text.append("}}");
        self.gjwriter.open = false;
    }
}

} // verus!
