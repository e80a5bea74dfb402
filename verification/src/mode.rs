//! Display modes: a resolution with a set of refresh rates, and the text
//! form `<width>x<height>[@<rate>(/<rate>)*]`.

use crate::decimal::{
    decimal_text, format_decimal, is_decimal, is_digit, lemma_decimal_text_value, parse_positive,
    positive_of_text,
};
use crate::rates::{ascending, lemma_ascending, RateSet};
use crate::text::{
    chars_of, find_char, first_index, join_with_char, joined, lemma_first_index_is,
};
use vstd::prelude::*;
use vstd::string::*;

verus! {

/// A width or a height in pixels.
pub type Dimen = u32;

/// What a mode is: a resolution and the set of refresh rates known for it.
/// An empty set means that the rates are unspecified.
pub struct ModeView {
    pub width: u32,
    pub height: u32,
    pub rates: Set<u32>,
}

impl ModeView {
    /// The resolution, by which modes are told apart.
    pub open spec fn key(self) -> (u32, u32) {
        (self.width, self.height)
    }

    /// Whether both dimensions and every refresh rate are positive.
    pub open spec fn valid(self) -> bool {
        &&& self.width > 0
        &&& self.height > 0
        &&& !self.rates.contains(0)
    }
}

/// A display mode. Both dimensions and all refresh rates are positive.
#[derive(Debug, PartialEq, Eq)]
pub struct Mode {
    width: Dimen,
    height: Dimen,
    refresh_rates: RateSet,
}

impl View for Mode {
    type V = ModeView;

    closed spec fn view(&self) -> ModeView {
        ModeView { width: self.width, height: self.height, rates: self.refresh_rates@ }
    }
}

impl Clone for Mode {
    fn clone(&self) -> (copy: Self)
        ensures
            copy@ == self@,
    {
        proof {
            use_type_invariant(self);
        }
        Mode { width: self.width, height: self.height, refresh_rates: self.refresh_rates.clone() }
    }
}

/// What a sequence of modes is, entry by entry.
pub open spec fn views(modes: Seq<Mode>) -> Seq<ModeView> {
    modes.map_values(|mode: Mode| mode@)
}

/// Why a text is not a mode.
#[derive(Debug, Clone, Copy, PartialEq, Eq)]
pub enum ParseError {
    /// There is no `x` between width and height.
    MissingSeparator,
    /// The text before the `x` is not a positive number.
    InvalidWidth,
    /// The text after the `x` is not a positive number.
    InvalidHeight,
    /// The text after the `@` is not a list of positive numbers separated by `/`.
    InvalidRefreshRate,
}

/// The rates that `s` lists: positive numbers with a `/` between neighbours.
/// An empty text, an empty segment or a segment that is not a positive number
/// makes the whole list invalid.
pub open spec fn rates_of_text(s: Seq<char>) -> Option<Seq<u32>>
    decreases s.len(),
{
    let cut = first_index(s, '/');
    match positive_of_text(s.take(cut)) {
        None => None,
        Some(rate) => if 0 <= cut < s.len() {
            match rates_of_text(s.skip(cut + 1)) {
                None => None,
                Some(rest) => Some(seq![rate] + rest),
            }
        } else {
            Some(seq![rate])
        },
    }
}

/// The mode that the text `t` denotes, or the reason why it denotes none.
///
/// The text up to the first `@` holds the dimensions, split at its first `x`;
/// what follows the first `@`, if there is one, is the list of refresh rates.
pub open spec fn mode_of_text(t: Seq<char>) -> Result<ModeView, ParseError> {
    let at = first_index(t, '@');
    let dims = t.take(at);
    let x = first_index(dims, 'x');
    if !(0 <= x < dims.len()) {
        Err(ParseError::MissingSeparator)
    } else {
        match positive_of_text(dims.take(x)) {
            None => Err(ParseError::InvalidWidth),
            Some(width) => match positive_of_text(dims.skip(x + 1)) {
                None => Err(ParseError::InvalidHeight),
                Some(height) => if 0 <= at < t.len() {
                    match rates_of_text(t.skip(at + 1)) {
                        None => Err(ParseError::InvalidRefreshRate),
                        Some(list) => Ok(ModeView { width, height, rates: list.to_set() }),
                    }
                } else {
                    Ok(ModeView { width, height, rates: Set::empty() })
                },
            },
        }
    }
}

/// Every listed rate is positive.
pub proof fn lemma_rates_of_text_positive(s: Seq<char>)
    ensures
        rates_of_text(s) matches Some(list) ==> !list.contains(0),
    decreases s.len(),
{
    let cut = first_index(s, '/');
    if positive_of_text(s.take(cut)) is Some && 0 <= cut < s.len() {
        lemma_rates_of_text_positive(s.skip(cut + 1));
        if let Some(rest) = rates_of_text(s.skip(cut + 1)) {
            let rate = positive_of_text(s.take(cut))->0;
            let list = seq![rate] + rest;
            assert forall|i: int| 0 <= i < list.len() implies list[i] != 0 by {
                if i > 0 {
                    assert(rest.contains(rest[i - 1]));
                }
            }
        }
    }
}

/// A text denotes only modes with positive dimensions and rates.
pub proof fn lemma_mode_of_text_valid(t: Seq<char>)
    ensures
        mode_of_text(t) matches Ok(view) ==> view.valid(),
{
    let at = first_index(t, '@');
    if 0 <= at < t.len() {
        lemma_rates_of_text_positive(t.skip(at + 1));
    }
}

/// The text of a list of rates: their decimal texts with `/` between them.
pub open spec fn rates_text(list: Seq<u32>) -> Seq<char> {
    joined(list.map_values(|rate: u32| decimal_text(rate as nat)), '/')
}

/// The canonical text of a mode: `<width>x<height>`, followed, if any rates
/// are known, by `@` and the rates in increasing order.
pub open spec fn mode_text(m: ModeView) -> Seq<char> {
    let dims = decimal_text(m.width as nat).push('x') + decimal_text(m.height as nat);
    let list = ascending(m.rates);
    if list.len() == 0 {
        dims
    } else {
        dims.push('@') + rates_text(list)
    }
}

/// The decimal text of a positive 32-bit number reads back as that number.
pub proof fn lemma_positive_round_trip(n: u32)
    requires
        n > 0,
    ensures
        positive_of_text(decimal_text(n as nat)) == Some(n),
        is_decimal(decimal_text(n as nat)),
{
    lemma_decimal_text_value(n as nat);
}

/// The text of a non-empty list of positive rates reads back as that list.
pub proof fn lemma_rates_round_trip(list: Seq<u32>)
    requires
        list.len() > 0,
        forall|i: int| 0 <= i < list.len() ==> list[i] > 0,
    ensures
        rates_of_text(rates_text(list)) == Some(list),
        forall|i: int|
            0 <= i < rates_text(list).len() ==> #[trigger] rates_text(list)[i] != '@',
    decreases list.len(),
{
    let parts = list.map_values(|rate: u32| decimal_text(rate as nat));
    let text = rates_text(list);
    let first = decimal_text(list[0] as nat);
    lemma_positive_round_trip(list[0]);
    assert(parts[0] == first);
    assert forall|i: int| 0 <= i < first.len() implies first[i] != '/' && first[i] != '@' by {
        assert(is_digit(first[i]));
    }
    if list.len() == 1 {
        assert(text == first);
        lemma_first_index_is(text, '/', text.len() as int);
        assert(text.take(text.len() as int) =~= first);
        assert(seq![list[0]] =~= list);
    } else {
        let rest = list.drop_first();
        lemma_rates_round_trip(rest);
        assert(parts.drop_first() =~= rest.map_values(|rate: u32| decimal_text(rate as nat)));
        assert(text == first.push('/') + rates_text(rest));
        lemma_first_index_is(text, '/', first.len() as int);
        assert(text.take(first.len() as int) =~= first);
        assert(text.skip(first.len() as int + 1) =~= rates_text(rest));
        assert(seq![list[0]] + rest =~= list);
        assert forall|i: int| 0 <= i < text.len() implies #[trigger] text[i] != '@' by {
            if i > first.len() {
                assert(text[i] == rates_text(rest)[i - first.len() - 1]);
            }
        }
    }
}

/// Round trip: the canonical text of a valid mode denotes that very mode.
pub proof fn lemma_text_round_trip(m: ModeView)
    requires
        m.valid(),
    ensures
        mode_of_text(mode_text(m)) == Ok::<ModeView, ParseError>(m),
{
    let w = decimal_text(m.width as nat);
    let h = decimal_text(m.height as nat);
    let dims = w.push('x') + h;
    let list = ascending(m.rates);
    let t = mode_text(m);
    lemma_positive_round_trip(m.width);
    lemma_positive_round_trip(m.height);
    lemma_ascending(m.rates);
    assert forall|i: int| 0 <= i < w.len() implies w[i] != 'x' && w[i] != '@' by {
        assert(is_digit(w[i]));
    }
    assert forall|i: int| 0 <= i < h.len() implies h[i] != 'x' && h[i] != '@' by {
        assert(is_digit(h[i]));
    }
    assert forall|i: int| 0 <= i < dims.len() implies dims[i] != '@' by {
        if i > w.len() {
            assert(dims[i] == h[i - w.len() - 1]);
        }
    }
    lemma_first_index_is(dims, 'x', w.len() as int);
    assert(dims.take(w.len() as int) =~= w);
    assert(dims.skip(w.len() as int + 1) =~= h);
    if list.len() == 0 {
        lemma_first_index_is(t, '@', t.len() as int);
        assert(t.take(t.len() as int) =~= dims);
        assert(m.rates =~= Set::<u32>::empty()) by {
            assert forall|r: u32| !m.rates.contains(r) by {
                if m.rates.contains(r) {
                    assert(list.contains(r));
                }
            }
        }
    } else {
        assert forall|i: int| 0 <= i < list.len() implies list[i] > 0 by {
            assert(list.contains(list[i]));
        }
        lemma_rates_round_trip(list);
        let r = rates_text(list);
        assert forall|i: int| 0 <= i < dims.len() implies t[i] != '@' by {
            assert(t[i] == dims[i]);
        }
        lemma_first_index_is(t, '@', dims.len() as int);
        assert(t.take(dims.len() as int) =~= dims);
        assert(t.skip(dims.len() as int + 1) =~= r);
    }
}

/// Reads the rate list that starts at `text[from]` and runs to the end.
fn parse_rate_list(text: &Vec<char>, from: usize) -> (rates: Option<RateSet>)
    requires
        from <= text.len(),
    ensures
        match rates_of_text(text@.skip(from as int)) {
            Some(list) => rates matches Some(set) && set@ == list.to_set(),
            None => rates is None,
        },
{
    let ghost whole = text@.skip(from as int);
    let ghost mut seen: Seq<u32> = Seq::empty();
    let mut set = RateSet::new();
    let mut pos: usize = from;
    assert(seen.to_set() =~= Set::<u32>::empty());
    loop
        invariant
            from <= pos <= text.len(),
            whole == text@.skip(from as int),
            set@ == seen.to_set(),
            rates_of_text(whole) == match rates_of_text(text@.skip(pos as int)) {
                None => None::<Seq<u32>>,
                Some(rest) => Some(seen + rest),
            },
        decreases text.len() - pos,
    {
        let ghost tail = text@.skip(pos as int);
        let cut = find_char(text, pos, text.len(), '/');
        let value = parse_positive(text, pos, cut);
        proof {
            assert(tail =~= text@.subrange(pos as int, text.len() as int));
            assert(tail.take(cut - pos) =~= text@.subrange(pos as int, cut as int));
            if cut < text.len() {
                assert(tail.skip(cut - pos + 1) =~= text@.skip(cut + 1));
            }
        }
        match value {
            None => {
                return None;
            },
            Some(rate) => {
                set.insert(rate);
                proof {
                    seen.lemma_push_to_set_commute(rate);
                }
                if cut == text.len() {
                    proof {
                        assert(seen + seq![rate] =~= seen.push(rate));
                    }
                    return Some(set);
                }
                proof {
                    let next = text@.skip(cut + 1);
                    if let Some(rest) = rates_of_text(next) {
                        assert(seen + (seq![rate] + rest) =~= seen.push(rate) + rest);
                    }
                    seen = seen.push(rate);
                }
                pos = cut + 1;
            },
        }
    }
}

impl Mode {
    /// The invariant of every `Mode` value.
    #[verifier::type_invariant]
    pub open spec fn well_formed(&self) -> bool {
        self@.valid()
    }

    /// Makes a mode from its parts, unless a dimension or a rate is zero.
    pub fn new(width: Dimen, height: Dimen, refresh_rates: RateSet) -> (mode: Option<Mode>)
        ensures
            match mode {
                Some(m) => m@ == (ModeView { width, height, rates: refresh_rates@ }) && m@.valid(),
                None => !(ModeView { width, height, rates: refresh_rates@ }).valid(),
            },
    {
        if width == 0 || height == 0 || refresh_rates.contains(0) {
            None
        } else {
            Some(Mode { width, height, refresh_rates })
        }
    }

    /// Reads a mode from text such as `1920x1080`, `3840x2160@120` or
    /// `1280x720@60/120`. A rate that is listed twice counts once.
    pub fn parse(text: &str) -> (parsed: Result<Mode, ParseError>)
        ensures
            match mode_of_text(text@) {
                Ok(view) => parsed matches Ok(mode) && mode@ == view,
                Err(reason) => parsed == Err::<Mode, ParseError>(reason),
            },
    {
        let chars = chars_of(text);
        let end = chars.len();
        let at = find_char(&chars, 0, end, '@');
        let x = find_char(&chars, 0, at, 'x');
        proof {
            let t = chars@;
            let dims = t.take(at as int);
            assert(t.subrange(0, end as int) =~= t);
            assert(dims =~= t.subrange(0, at as int));
            assert(dims.take(x as int) =~= t.subrange(0, x as int));
            if x < at {
                assert(dims.skip(x + 1) =~= t.subrange(x + 1, at as int));
            }
            lemma_mode_of_text_valid(t);
        }
        if x == at {
            return Err(ParseError::MissingSeparator);
        }
        let width = match parse_positive(&chars, 0, x) {
            Some(width) => width,
            None => {
                return Err(ParseError::InvalidWidth);
            },
        };
        let height = match parse_positive(&chars, x + 1, at) {
            Some(height) => height,
            None => {
                return Err(ParseError::InvalidHeight);
            },
        };
        let refresh_rates = if at == end {
            RateSet::new()
        } else {
            match parse_rate_list(&chars, at + 1) {
                Some(rates) => rates,
                None => {
                    return Err(ParseError::InvalidRefreshRate);
                },
            }
        };
        Ok(Mode { width, height, refresh_rates })
    }

    /// The canonical text of the mode, which `parse` reads back.
    pub fn to_text(&self) -> (text: String)
        ensures
            text@ == mode_text(self@),
    {
        proof {
            reveal_strlit("x");
            reveal_strlit("@");
        }
        let mut text = format_decimal(self.width);
        text.append("x");
        let height = format_decimal(self.height);
        text.append(height.as_str());
        let list = self.refresh_rates.to_vec();
        assert(text@ =~= decimal_text(self.width as nat).push('x') + decimal_text(
            self.height as nat,
        ));
        if list.len() > 0 {
            let mut parts: Vec<String> = Vec::new();
            let mut i: usize = 0;
            while i < list.len()
                invariant
                    i <= list.len(),
                    parts.len() == i,
                    forall|j: int|
                        0 <= j < i ==> (#[trigger] parts@[j])@ == decimal_text(list@[j] as nat),
                decreases list.len() - i,
            {
                parts.push(format_decimal(list[i]));
                i = i + 1;
            }
            assert(parts@.map_values(|part: String| part@) =~= list@.map_values(
                |rate: u32| decimal_text(rate as nat),
            ));
            let rates = join_with_char(&parts, '/');
            text.append("@");
            text.append(rates.as_str());
            assert(text@ =~= (decimal_text(self.width as nat).push('x') + decimal_text(
                self.height as nat,
            )).push('@') + rates_text(list@));
        }
        text
    }

    /// The width in pixels.
    pub fn width(&self) -> (width: Dimen)
        ensures
            width == self@.width,
            width > 0,
    {
        proof {
            use_type_invariant(self);
        }
        self.width
    }

    /// The height in pixels.
    pub fn height(&self) -> (height: Dimen)
        ensures
            height == self@.height,
            height > 0,
    {
        proof {
            use_type_invariant(self);
        }
        self.height
    }

    /// The refresh rates known for this resolution.
    pub fn refresh_rates(&self) -> (rates: &RateSet)
        ensures
            rates@ == self@.rates,
            !rates@.contains(0),
    {
        proof {
            use_type_invariant(self);
        }
        &self.refresh_rates
    }

    /// Whether `other` has the same resolution.
    pub fn same_resolution(&self, other: &Mode) -> (same: bool)
        ensures
            same == (self@.key() == other@.key()),
    {
        self.width == other.width && self.height == other.height
    }

    /// The same resolution with the rates of both `self` and `other`.
    pub fn with_rates_of(&self, other: &Mode) -> (mode: Mode)
        ensures
            mode@ == (ModeView {
                width: self@.width,
                height: self@.height,
                rates: self@.rates.union(other@.rates),
            }),
    {
        proof {
            use_type_invariant(self);
            use_type_invariant(other);
        }
        let rates = self.refresh_rates.union(&other.refresh_rates);
        Mode { width: self.width, height: self.height, refresh_rates: rates }
    }

    /// The same resolution without the rates in `removed`.
    pub fn without_rates(&self, removed: &RateSet) -> (mode: Mode)
        ensures
            mode@ == (ModeView {
                width: self@.width,
                height: self@.height,
                rates: self@.rates.difference(removed@),
            }),
    {
        proof {
            use_type_invariant(self);
        }
        let rates = self.refresh_rates.difference(removed);
        Mode { width: self.width, height: self.height, refresh_rates: rates }
    }
}

} // verus!
