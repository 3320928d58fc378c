//! Working out which audio tracks a release carries.
//!
//! Two independent signals, because neither is reliable alone:
//!
//! 1. **Flag emoji.** Torrentio appends regional-indicator flags to a stream's
//!    title, one per audio language. This is structured and trustworthy, but
//!    only Torrentio provides it.
//! 2. **The release name.** `Dual.Audio`, `Hin-Eng`, `[Hindi+English]` and so on.
//!    Noisier, but it is all a raw indexer like apibay gives us.
//!
//! Both feed one `Audio` value so ranking does not care where a candidate came
//! from.

use crate::text;
use vstd::prelude::*;

verus! {

/// A set of language names, held in text order without repeats.
#[derive(Debug, PartialEq, Eq)]
pub struct Languages {
    names: Vec<&'static str>,
}

/// Each text comes before the next.
pub open spec fn ascending(s: Seq<Seq<char>>) -> bool {
    forall|i: int, j: int| 0 <= i < j < s.len() ==> text::text_before(#[trigger] s[i], #[trigger] s[j])
}

impl View for Languages {
    type V = Seq<Seq<char>>;

    closed spec fn view(&self) -> Seq<Seq<char>> {
        text::str_texts(self.names@)
    }
}

impl Languages {
    #[verifier::type_invariant]
    spec fn well_formed(self) -> bool {
        ascending(text::str_texts(self.names@))
    }

    pub fn new() -> (r: Languages)
        ensures
            r@ == Seq::<Seq<char>>::empty(),
            ascending(r@),
    {
        let r = Languages { names: Vec::new() };
        assert(r@ =~= Seq::empty());
        r
    }

    /// Whether a language is in the set.
    pub fn contains(&self, name: &str) -> (r: bool)
        ensures
            r == self@.contains(name@),
    {
        let mut i: usize = 0;
        while i < self.names.len()
            invariant
                i <= self.names.len(),
                forall|j: int| 0 <= j < i ==> #[trigger] self@[j] != name@,
            decreases self.names.len() - i,
        {
            assert(self@[i as int] == self.names@[i as int]@);
            if text::same_str(self.names[i], name) {
                return true;
            }
            i += 1;
        }
        false
    }

    /// How many languages there are.
    pub fn len(&self) -> (r: usize)
        ensures
            r == self@.len(),
            ascending(self@),
    {
        proof {
            use_type_invariant(self);
        }
        self.names.len()
    }

    /// The language at a place in text order.
    pub fn name(&self, i: usize) -> (r: &'static str)
        requires
            i < self@.len(),
        ensures
            r@ == self@[i as int],
    {
        self.names[i]
    }

    /// Adds a language; one already there changes nothing.
    pub fn insert(&mut self, name: &'static str)
        ensures
            ascending(final(self)@),
            final(self)@.to_set() == old(self)@.to_set().insert(name@),
    {
        proof {
            use_type_invariant(&*self);
        }
        let ghost before = self@;
        let mut names: Vec<&'static str> = Vec::new();
        std::mem::swap(&mut names, &mut self.names);
        let key = text::chars_of(name);
        let mut i: usize = 0;
        while i < names.len()
            invariant_except_break
                i <= names.len(),
                before == text::str_texts(names@),
                ascending(before),
                key@ == name@,
                forall|j: int| 0 <= j < i ==> text::text_before(#[trigger] before[j], name@),
            ensures
                i <= names.len(),
                before == text::str_texts(names@),
                forall|j: int| 0 <= j < i ==> text::text_before(#[trigger] before[j], name@),
                i < names.len() ==> !text::text_before(before[i as int], name@),
            decreases names.len() - i,
        {
            let here = text::chars_of(names[i]);
            if !text::comes_before(here.as_slice(), key.as_slice()) {
                break;
            }
            i += 1;
        }
        if i < names.len() && text::same_str(names[i], name) {
            self.names = names;
            assert(before[i as int] == name@);
            assert(self@ == before);
            assert(before.to_set().insert(name@) =~= before.to_set());
            return;
        }
        names.insert(i, name);
        let ghost after = text::str_texts(names@);
        proof {
            assert(after =~= before.insert(i as int, name@));
            assert forall|a: int, b: int| 0 <= a < b < after.len() implies text::text_before(
                #[trigger] after[a],
                #[trigger] after[b],
            ) by {
                if b < i {
                    assert(text::text_before(before[a], before[b]));
                } else if b == i {
                    assert(text::text_before(before[a], name@));
                } else {
                    if i < before.len() {
                        text::text_order(name@, before[i as int], before[b - 1]);
                        if i < b - 1 {
                            assert(text::text_before(before[i as int], before[b - 1]));
                        }
                    }
                    if a > i {
                        assert(text::text_before(before[a - 1], before[b - 1]));
                    } else if a < i {
                        assert(text::text_before(before[a], before[b - 1]));
                    }
                }
            }
            assert(after.to_set() =~= before.to_set().insert(name@)) by {
                assert(after[i as int] == name@);
                assert forall|x: Seq<char>| before.contains(x) implies after.contains(x) by {
                    let k = choose|k: int| 0 <= k < before.len() && before[k] == x;
                    if k < i {
                        assert(after[k] == x);
                    } else {
                        assert(after[k + 1] == x);
                    }
                }
                assert forall|x: Seq<char>| after.contains(x) implies x == name@ || before.contains(
                    x,
                ) by {
                    let k = choose|k: int| 0 <= k < after.len() && after[k] == x;
                    if k < i {
                        assert(before[k] == x);
                    } else if k > i {
                        assert(before[k - 1] == x);
                    }
                }
            }
        }
        self.names = names;
    }

    /// Adds every language of another set.
    pub fn extend(&mut self, other: &Languages)
        ensures
            ascending(final(self)@),
            final(self)@.to_set() == old(self)@.to_set().union(other@.to_set()),
    {
        let ghost before = self@.to_set();
        let mut i: usize = 0;
        proof {
            use_type_invariant(&*self);
            assert(before.union(other@.take(0).to_set()) =~= before);
        }
        while i < other.names.len()
            invariant
                i <= other.names.len(),
                ascending(self@),
                self@.to_set() == before.union(other@.take(i as int).to_set()),
            decreases other.names.len() - i,
        {
            let name = other.names[i];
            proof {
                let a = other@.take(i as int);
                let b = other@.take(i + 1);
                assert(b =~= a.push(name@));
                assert forall|x: Seq<char>| b.contains(x) == (a.contains(x) || x == name@) by {
                    if a.contains(x) {
                        let k = choose|k: int| 0 <= k < a.len() && a[k] == x;
                        assert(b[k] == x);
                    }
                    assert(b[i as int] == name@);
                    if b.contains(x) && x != name@ {
                        let k = choose|k: int| 0 <= k < b.len() && b[k] == x;
                        assert(a[k] == x);
                    }
                }
                assert(before.union(b.to_set()) =~= before.union(a.to_set()).insert(name@));
            }
            self.insert(name);
            i += 1;
        }
        assert(other@.take(other@.len() as int) =~= other@);
    }
}

impl Default for Languages {
    fn default() -> (r: Languages)
        ensures
            r@ == Seq::<Seq<char>>::empty(),
    {
        Languages::new()
    }
}

impl Clone for Languages {
    fn clone(&self) -> (r: Languages)
        ensures
            r@ == self@,
    {
        proof {
            use_type_invariant(self);
        }
        let mut names: Vec<&'static str> = Vec::new();
        let mut i: usize = 0;
        while i < self.names.len()
            invariant
                i <= self.names.len(),
                names@ == self.names@.take(i as int),
            decreases self.names.len() - i,
        {
            assert(self.names@.take(i + 1) =~= self.names@.take(i as int).push(
                self.names@[i as int],
            ));
            names.push(self.names[i]);
            i += 1;
        }
        assert(names@ =~= self.names@);
        Languages { names }
    }
}

/// Audio languages detected on a release.
#[derive(Debug, PartialEq, Eq)]
pub struct Audio {
    pub hindi: bool,
    pub english: bool,
    /// An explicit "dual audio" / "multi audio" marker in the name, which says
    /// there is more than one track without naming them.
    pub multi_marker: bool,
    /// Everything else recognised, for display only.
    pub others: Languages,
}

/// What a release is heard to carry: the languages, and whether its name says
/// that there are several.
#[verifier::ext_equal]
pub struct Heard {
    pub hindi: bool,
    pub english: bool,
    pub multi_marker: bool,
    pub others: Set<Seq<char>>,
}

impl View for Audio {
    type V = Heard;

    open spec fn view(&self) -> Heard {
        Heard {
            hindi: self.hindi,
            english: self.english,
            multi_marker: self.multi_marker,
            others: self.others@.to_set(),
        }
    }
}

impl Default for Audio {
    fn default() -> (r: Audio)
        ensures
            r@ == silence(),
            r.others@.len() == 0,
    {
        let others = Languages::new();
        assert(others@.to_set() =~= Set::empty());
        Audio { hindi: false, english: false, multi_marker: false, others }
    }
}

impl Clone for Audio {
    fn clone(&self) -> (r: Audio)
        ensures
            r@ == self@,
            r.others@ == self.others@,
    {
        Audio {
            hindi: self.hindi,
            english: self.english,
            multi_marker: self.multi_marker,
            others: self.others.clone(),
        }
    }
}

/// How confident we are that a release carries both Hindi and English.
///
/// Ordered worst to best so `Ord` can rank candidates directly.
#[derive(Clone, Copy, Debug, PartialEq, Eq, PartialOrd, Ord, Structural)]
pub enum Dual {
    /// No evidence of two languages.
    No,
    /// Says "Dual Audio" (or similar) and mentions one of the two, but does not
    /// name both. Usually right for Indian releases, occasionally not.
    Likely,
    /// Both languages named or flagged.
    Yes,
}

impl Dual {
    /// The place of a confidence in its order, worst first.
    pub open spec fn level(self) -> nat {
        match self {
            Dual::No => 0,
            Dual::Likely => 1,
            Dual::Yes => 2,
        }
    }

    /// The place of a confidence in its order, worst first.
    pub fn rank(self) -> (r: u8)
        ensures
            r == self.level(),
    {
        match self {
            Dual::No => 0,
            Dual::Likely => 1,
            Dual::Yes => 2,
        }
    }
}

/// Nothing heard.
pub open spec fn silence() -> Heard {
    Heard { hindi: false, english: false, multi_marker: false, others: Set::empty() }
}

/// Both signals together.
pub open spec fn both(a: Heard, b: Heard) -> Heard {
    Heard {
        hindi: a.hindi || b.hindi,
        english: a.english || b.english,
        multi_marker: a.multi_marker || b.multi_marker,
        others: a.others.union(b.others),
    }
}

/// The confidence that Hindi and English are both there. A multi-audio marker
/// counts only beside Hindi, not beside any second language.
pub open spec fn confidence(h: Heard) -> Dual {
    if h.hindi && h.english {
        Dual::Yes
    } else if h.multi_marker && h.hindi {
        Dual::Likely
    } else {
        Dual::No
    }
}

/// The languages as a label names them: Hindi, English, then the others.
pub open spec fn spoken(a: Audio) -> Seq<Seq<char>> {
    (if a.hindi {
        seq!["Hindi"@]
    } else {
        Seq::empty()
    }) + (if a.english {
        seq!["English"@]
    } else {
        Seq::empty()
    }) + a.others@
}

pub open spec fn audio_label(a: Audio) -> Seq<char> {
    let names = text::join(spoken(a), "+"@);
    match confidence(a@) {
        Dual::Yes => "Dual "@ + names,
        Dual::Likely => "Dual? "@ + names,
        Dual::No => names,
    }
}

impl Audio {
    /// Confidence that this carries Hindi *and* English.
    ///
    /// `Likely` requires Hindi specifically, not just "some second language":
    /// a multi-language release of two other languages is not what anyone
    /// asked for.
    pub fn dual(&self) -> (r: Dual)
        ensures
            r == confidence(self@),
    {
        if self.hindi && self.english {
            Dual::Yes
        } else if self.multi_marker && self.hindi {
            Dual::Likely
        } else {
            Dual::No
        }
    }

    /// Short label for the candidate line, empty when nothing was detected.
    pub fn label(&self) -> (r: String)
        ensures
            r@ == audio_label(*self),
    {
        let mut parts: Vec<Vec<char>> = Vec::new();
        if self.hindi {
            parts.push(text::chars_of("Hindi"));
        }
        if self.english {
            parts.push(text::chars_of("English"));
        }
        let ghost head = text::texts(parts@);
        let mut i: usize = 0;
        assert(self.others@.take(0) =~= Seq::empty());
        while i < self.others.len()
            invariant
                i <= self.others@.len(),
                text::texts(parts@) == head + self.others@.take(i as int),
            decreases self.others@.len() - i,
        {
            assert(self.others@.take(i + 1) =~= self.others@.take(i as int).push(
                self.others@[i as int],
            ));
            let ghost before = text::texts(parts@);
            parts.push(text::chars_of(self.others.name(i)));
            assert(text::texts(parts@) =~= before.push(self.others@[i as int]));
            assert(text::texts(parts@) =~= head + self.others@.take(i + 1));
            i += 1;
        }
        assert(self.others@.take(self.others@.len() as int) =~= self.others@);
        assert(text::texts(parts@) =~= spoken(*self));
        let names = text::joined(&parts, "+");
        let mut out: Vec<char> = match self.dual() {
            Dual::Yes => text::chars_of("Dual "),
            Dual::Likely => text::chars_of("Dual? "),
            Dual::No => Vec::new(),
        };
        text::push_all(&mut out, names.as_slice());
        assert(Seq::<char>::empty() + names@ =~= names@);
        text::string_of(out.as_slice())
    }
}

/// What a language is to the ranking: one of the two that count, or another.
#[derive(Clone, Copy, Debug, PartialEq, Eq, Structural)]
pub enum Lang {
    Hindi,
    English,
    Other,
}

/// The audio language that a country's flag stands for: its name, and what it
/// is to the ranking.
pub open spec fn flagged(cc: Seq<char>) -> Option<(Seq<char>, Lang)> {
    if cc == "IN"@ {
        Some(("Hindi"@, Lang::Hindi))
    } else if cc == "GB"@ || cc == "US"@ {
        Some(("English"@, Lang::English))
    } else if cc == "IT"@ {
        Some(("Italian"@, Lang::Other))
    } else if cc == "FR"@ {
        Some(("French"@, Lang::Other))
    } else if cc == "DE"@ {
        Some(("German"@, Lang::Other))
    } else if cc == "ES"@ {
        Some(("Spanish"@, Lang::Other))
    } else if cc == "PT"@ || cc == "BR"@ {
        Some(("Portuguese"@, Lang::Other))
    } else if cc == "RU"@ {
        Some(("Russian"@, Lang::Other))
    } else if cc == "JP"@ {
        Some(("Japanese"@, Lang::Other))
    } else if cc == "KR"@ {
        Some(("Korean"@, Lang::Other))
    } else if cc == "CN"@ || cc == "TW"@ {
        Some(("Chinese"@, Lang::Other))
    } else if cc == "TR"@ {
        Some(("Turkish"@, Lang::Other))
    } else if cc == "NL"@ {
        Some(("Dutch"@, Lang::Other))
    } else if cc == "PL"@ {
        Some(("Polish"@, Lang::Other))
    } else if cc == "SE"@ {
        Some(("Swedish"@, Lang::Other))
    } else if cc == "DK"@ {
        Some(("Danish"@, Lang::Other))
    } else if cc == "NO"@ {
        Some(("Norwegian"@, Lang::Other))
    } else if cc == "FI"@ {
        Some(("Finnish"@, Lang::Other))
    } else if cc == "GR"@ {
        Some(("Greek"@, Lang::Other))
    } else if cc == "HU"@ {
        Some(("Hungarian"@, Lang::Other))
    } else if cc == "RO"@ {
        Some(("Romanian"@, Lang::Other))
    } else if cc == "AR"@ || cc == "SA"@ {
        Some(("Arabic"@, Lang::Other))
    } else if cc == "TH"@ {
        Some(("Thai"@, Lang::Other))
    } else if cc == "VN"@ {
        Some(("Vietnamese"@, Lang::Other))
    } else if cc == "ID"@ {
        Some(("Indonesian"@, Lang::Other))
    } else if cc == "LT"@ {
        Some(("Lithuanian"@, Lang::Other))
    } else if cc == "UA"@ {
        Some(("Ukrainian"@, Lang::Other))
    } else if cc == "CZ"@ {
        Some(("Czech"@, Lang::Other))
    } else if cc == "BG"@ {
        Some(("Bulgarian"@, Lang::Other))
    } else if cc == "MX"@ {
        Some(("Spanish"@, Lang::Other))
    } else {
        None
    }
}

/// Map a country flag emoji to the audio language it stands for here.
///
/// Torrentio flags the *language*, using a representative country: India for
/// Hindi, the United Kingdom for English. It is not a claim about where the
/// release came from.
pub fn language_of(cc: &str) -> (r: Option<(&'static str, Lang)>)
    ensures
        match r {
            Some(l) => flagged(cc@) == Some((l.0@, l.1)),
            None => flagged(cc@) is None,
        },
{
    if text::same_str(cc, "IN") {
        Some(("Hindi", Lang::Hindi))
    } else if text::same_str(cc, "GB") || text::same_str(cc, "US") {
        Some(("English", Lang::English))
    } else if text::same_str(cc, "IT") {
        Some(("Italian", Lang::Other))
    } else if text::same_str(cc, "FR") {
        Some(("French", Lang::Other))
    } else if text::same_str(cc, "DE") {
        Some(("German", Lang::Other))
    } else if text::same_str(cc, "ES") {
        Some(("Spanish", Lang::Other))
    } else if text::same_str(cc, "PT") || text::same_str(cc, "BR") {
        Some(("Portuguese", Lang::Other))
    } else if text::same_str(cc, "RU") {
        Some(("Russian", Lang::Other))
    } else if text::same_str(cc, "JP") {
        Some(("Japanese", Lang::Other))
    } else if text::same_str(cc, "KR") {
        Some(("Korean", Lang::Other))
    } else if text::same_str(cc, "CN") || text::same_str(cc, "TW") {
        Some(("Chinese", Lang::Other))
    } else if text::same_str(cc, "TR") {
        Some(("Turkish", Lang::Other))
    } else if text::same_str(cc, "NL") {
        Some(("Dutch", Lang::Other))
    } else if text::same_str(cc, "PL") {
        Some(("Polish", Lang::Other))
    } else if text::same_str(cc, "SE") {
        Some(("Swedish", Lang::Other))
    } else if text::same_str(cc, "DK") {
        Some(("Danish", Lang::Other))
    } else if text::same_str(cc, "NO") {
        Some(("Norwegian", Lang::Other))
    } else if text::same_str(cc, "FI") {
        Some(("Finnish", Lang::Other))
    } else if text::same_str(cc, "GR") {
        Some(("Greek", Lang::Other))
    } else if text::same_str(cc, "HU") {
        Some(("Hungarian", Lang::Other))
    } else if text::same_str(cc, "RO") {
        Some(("Romanian", Lang::Other))
    } else if text::same_str(cc, "AR") || text::same_str(cc, "SA") {
        Some(("Arabic", Lang::Other))
    } else if text::same_str(cc, "TH") {
        Some(("Thai", Lang::Other))
    } else if text::same_str(cc, "VN") {
        Some(("Vietnamese", Lang::Other))
    } else if text::same_str(cc, "ID") {
        Some(("Indonesian", Lang::Other))
    } else if text::same_str(cc, "LT") {
        Some(("Lithuanian", Lang::Other))
    } else if text::same_str(cc, "UA") {
        Some(("Ukrainian", Lang::Other))
    } else if text::same_str(cc, "CZ") {
        Some(("Czech", Lang::Other))
    } else if text::same_str(cc, "BG") {
        Some(("Bulgarian", Lang::Other))
    } else if text::same_str(cc, "MX") {
        Some(("Spanish", Lang::Other))
    } else {
        None
    }
}

/// A regional indicator symbol, half of a flag.
pub open spec fn is_indicator(c: char) -> bool {
    '\u{1F1E6}' <= c <= '\u{1F1FF}'
}

/// Where the regional indicator symbols stand, in order.
pub open spec fn indicators(s: Seq<char>) -> Seq<int>
    decreases s.len(),
{
    if s.len() == 0 {
        Seq::empty()
    } else {
        let before = indicators(s.drop_last());
        if is_indicator(s.last()) {
            before.push(s.len() - 1)
        } else {
            before
        }
    }
}

/// The Latin letter of a regional indicator symbol.
pub open spec fn letter(c: char) -> char {
    ('A' as u32 + (c as u32 - 0x1F1E6)) as char
}

/// The country code of pair number `k` of the symbols taken two by two; only a
/// genuinely adjacent pair forms a flag.
pub open spec fn flag(s: Seq<char>, k: int) -> Option<Seq<char>> {
    let p = indicators(s);
    if p[2 * k + 1] == p[2 * k] + 1 {
        Some(seq![letter(s[p[2 * k]]), letter(s[p[2 * k + 1]])])
    } else {
        None
    }
}

/// One flag added to what was heard.
pub open spec fn with_flag(h: Heard, cc: Option<Seq<char>>) -> Heard {
    match cc {
        Some(cc) => match flagged(cc) {
            Some((_, Lang::Hindi)) => Heard { hindi: true, ..h },
            Some((_, Lang::English)) => Heard { english: true, ..h },
            Some((name, Lang::Other)) => Heard { others: h.others.insert(name), ..h },
            None => h,
        },
        None => h,
    }
}

/// What the first `n` pairs of symbols say.
pub open spec fn heard_in_pairs(s: Seq<char>, n: nat) -> Heard
    decreases n,
{
    if n == 0 {
        silence()
    } else {
        with_flag(heard_in_pairs(s, (n - 1) as nat), flag(s, n - 1))
    }
}

/// What the flags in a text say.
pub open spec fn heard_in_flags(s: Seq<char>) -> Heard {
    heard_in_pairs(s, indicators(s).len() / 2)
}

fn indicators_of(s: &[char]) -> (r: Vec<usize>)
    ensures
        r@.map_values(|i: usize| i as int) == indicators(s@),
        forall|k: int| 0 <= k < r@.len() ==> (#[trigger] r@[k]) < s@.len() && is_indicator(
            s@[r@[k] as int],
        ),
{
    let mut out: Vec<usize> = Vec::new();
    let mut i: usize = 0;
    assert(out@.map_values(|i: usize| i as int) =~= indicators(s@.take(0)));
    while i < s.len()
        invariant
            i <= s.len(),
            out@.map_values(|i: usize| i as int) == indicators(s@.take(i as int)),
            forall|k: int| 0 <= k < out@.len() ==> (#[trigger] out@[k]) < i && is_indicator(
                s@[out@[k] as int],
            ),
        decreases s.len() - i,
    {
        assert(s@.take(i + 1).drop_last() =~= s@.take(i as int));
        let c = s[i];
        if '\u{1F1E6}' <= c && c <= '\u{1F1FF}' {
            let ghost before = out@.map_values(|i: usize| i as int);
            out.push(i);
            assert(out@.map_values(|i: usize| i as int) =~= before.push(i as int));
        }
        i += 1;
    }
    assert(s@.take(s@.len() as int) =~= s@);
    out
}

fn letter_of(c: char) -> (r: char)
    requires
        is_indicator(c),
    ensures
        r == letter(c),
{
    (65u8 + (c as u32 - 0x1F1E6) as u8) as char
}

/// Decode regional-indicator pairs into languages.
pub fn from_flags(text: &str) -> (r: Audio)
    ensures
        r@ == heard_in_flags(text@),
        ascending(r.others@),
{
    let s = text::chars_of(text);
    let at = indicators_of(s.as_slice());
    let mut audio = Audio::default();
    let mut k: usize = 0;
    while k < at.len() / 2
        invariant
            k <= at@.len() / 2,
            audio@ == heard_in_pairs(s@, k as nat),
            ascending(audio.others@),
            at@.map_values(|i: usize| i as int) == indicators(s@),
            forall|k: int| 0 <= k < at@.len() ==> (#[trigger] at@[k]) < s@.len() && is_indicator(
                s@[at@[k] as int],
            ),
        decreases at@.len() / 2 - k,
    {
        let i = at[2 * k];
        let j = at[2 * k + 1];
        assert(indicators(s@)[2 * k] == i);
        assert(indicators(s@)[2 * k + 1] == j);
        if i < j && j - i == 1 {
            let mut pair: Vec<char> = Vec::new();
            pair.push(letter_of(s[i]));
            pair.push(letter_of(s[j]));
            assert(pair@ =~= seq![letter(s@[i as int]), letter(s@[j as int])]);
            let cc = text::string_of(pair.as_slice());
            match language_of(cc.as_str()) {
                Some((_, Lang::Hindi)) => {
                    audio.hindi = true;
                },
                Some((_, Lang::English)) => {
                    audio.english = true;
                },
                Some((name, Lang::Other)) => {
                    audio.others.insert(name);
                },
                None => {},
            }
        }
        k += 1;
    }
    audio
}

/// The name says that there are several tracks.
pub open spec fn says_multi(s: Seq<char>) -> bool {
    ||| text::has_words(s, "dual audio"@)
    ||| text::has_words(s, "dual audios"@)
    ||| text::has_words(s, "multi audio"@)
    ||| text::has_words(s, "multiaudio"@)
    ||| text::has_words(s, "dualaudio"@)
    ||| text::has_words(s, "dual lang"@)
    ||| text::has_words(s, "multi lang"@)
}

/// The name runs the two languages together.
pub open spec fn says_pair(s: Seq<char>) -> bool {
    ||| text::holds(text::flattened(s), "hindienglish"@)
    ||| text::holds(text::flattened(s), "enghindi"@)
    ||| text::holds(text::flattened(s), "hindieng"@)
}

pub open spec fn says_hindi(s: Seq<char>) -> bool {
    ||| text::has_words(s, "hindi"@)
    ||| text::has_words(s, "hin"@)
    ||| text::has_words(s, "hindi dd"@)
    ||| text::has_words(s, "hindiorg"@)
    ||| says_pair(s)
}

pub open spec fn says_english(s: Seq<char>) -> bool {
    ||| text::has_words(s, "english"@)
    ||| text::has_words(s, "eng"@)
    ||| text::has_words(s, "english dd"@)
    ||| says_pair(s)
}

/// A language added where the name holds its word.
pub open spec fn named_by(
    set: Set<Seq<char>>,
    s: Seq<char>,
    word: Seq<char>,
    name: Seq<char>,
) -> Set<Seq<char>> {
    if text::has_words(s, word) {
        set.insert(name)
    } else {
        set
    }
}

/// The further languages that a name mentions.
pub open spec fn says_others(s: Seq<char>) -> Set<Seq<char>> {
    let l1 = named_by(Set::empty(), s, "tamil"@, "Tamil"@);
    let l2 = named_by(l1, s, "telugu"@, "Telugu"@);
    let l3 = named_by(l2, s, "malayalam"@, "Malayalam"@);
    let l4 = named_by(l3, s, "kannada"@, "Kannada"@);
    let l5 = named_by(l4, s, "bengali"@, "Bengali"@);
    let l6 = named_by(l5, s, "bangla"@, "Bengali"@);
    let l7 = named_by(l6, s, "marathi"@, "Marathi"@);
    let l8 = named_by(l7, s, "punjabi"@, "Punjabi"@);
    let l9 = named_by(l8, s, "urdu"@, "Urdu"@);
    l9
}

/// What a release name says.
pub open spec fn heard_in_name(s: Seq<char>) -> Heard {
    Heard {
        hindi: says_hindi(s),
        english: says_english(s),
        multi_marker: says_multi(s),
        others: says_others(s),
    }
}

fn add_named(others: &mut Languages, framed: &[char], word: &str, name: &'static str)
    requires
        ascending(old(others)@),
    ensures
        ascending(final(others)@),
        forall|s: Seq<char>|
            framed@ == text::framed(s) ==> #[trigger] named_by(
                old(others)@.to_set(),
                s,
                word@,
                name@,
            ) == final(others)@.to_set(),
{
    if text::framed_has_str(framed, word) {
        others.insert(name);
    }
}

/// Pull language claims out of the release name.
pub fn from_name(text: &str) -> (r: Audio)
    ensures
        r@ == heard_in_name(text@),
        ascending(r.others@),
{
    let s = text::chars_of(text);
    // Separators are collapsed so `Dual.Audio`, `Dual_Audio` and `Dual Audio`
    // all read the same, and token tests cannot match inside a longer word.
    let flat = text::flatten(s.as_slice());
    let framed = text::frame(s.as_slice());
    let f = framed.as_slice();
    let multi_marker = text::framed_has_str(f, "dual audio") || text::framed_has_str(
        f,
        "dual audios",
    ) || text::framed_has_str(f, "multi audio") || text::framed_has_str(f, "multiaudio")
        || text::framed_has_str(f, "dualaudio") || text::framed_has_str(f, "dual lang")
        || text::framed_has_str(f, "multi lang");
    // Joined forms that the token pass cannot see: "Hin-Eng" collapses to
    // "hin eng", but "hindienglish" does not.
    let pair = text::contains_str(flat.as_slice(), "hindienglish") || text::contains_str(
        flat.as_slice(),
        "enghindi",
    ) || text::contains_str(flat.as_slice(), "hindieng");
    // `hin` and `eng` are standard release abbreviations. Whole-token
    // matching keeps `eng` off "England" and `hin` off "Hinterland".
    let hindi = text::framed_has_str(f, "hindi") || text::framed_has_str(f, "hin")
        || text::framed_has_str(f, "hindi dd") || text::framed_has_str(f, "hindiorg") || pair;
    let english = text::framed_has_str(f, "english") || text::framed_has_str(f, "eng")
        || text::framed_has_str(f, "english dd") || pair;
    let mut others = Languages::new();
    assert(others@.to_set() =~= Set::empty());
    add_named(&mut others, f, "tamil", "Tamil");
    assert(named_by(Set::empty(), s@, "tamil"@, "Tamil"@) == others@.to_set());
    let ghost l1 = others@.to_set();
    add_named(&mut others, f, "telugu", "Telugu");
    assert(named_by(l1, s@, "telugu"@, "Telugu"@) == others@.to_set());
    let ghost l2 = others@.to_set();
    add_named(&mut others, f, "malayalam", "Malayalam");
    assert(named_by(l2, s@, "malayalam"@, "Malayalam"@) == others@.to_set());
    let ghost l3 = others@.to_set();
    add_named(&mut others, f, "kannada", "Kannada");
    assert(named_by(l3, s@, "kannada"@, "Kannada"@) == others@.to_set());
    let ghost l4 = others@.to_set();
    add_named(&mut others, f, "bengali", "Bengali");
    assert(named_by(l4, s@, "bengali"@, "Bengali"@) == others@.to_set());
    let ghost l5 = others@.to_set();
    add_named(&mut others, f, "bangla", "Bengali");
    assert(named_by(l5, s@, "bangla"@, "Bengali"@) == others@.to_set());
    let ghost l6 = others@.to_set();
    add_named(&mut others, f, "marathi", "Marathi");
    assert(named_by(l6, s@, "marathi"@, "Marathi"@) == others@.to_set());
    let ghost l7 = others@.to_set();
    add_named(&mut others, f, "punjabi", "Punjabi");
    assert(named_by(l7, s@, "punjabi"@, "Punjabi"@) == others@.to_set());
    let ghost l8 = others@.to_set();
    add_named(&mut others, f, "urdu", "Urdu");
    assert(named_by(l8, s@, "urdu"@, "Urdu"@) == others@.to_set());
    let ghost l9 = others@.to_set();
    Audio { hindi, english, multi_marker, others }
}

/// Read every signal out of a stream's name and title text.
pub fn detect(text: &str) -> (r: Audio)
    ensures
        r@ == both(heard_in_flags(text@), heard_in_name(text@)),
        ascending(r.others@),
{
    let mut audio = from_flags(text);
    let named = from_name(text);
    audio.hindi = audio.hindi || named.hindi;
    audio.english = audio.english || named.english;
    audio.multi_marker = audio.multi_marker || named.multi_marker;
    audio.others.extend(&named.others);
    audio
}

/// The order in which languages were found does not show: two sets of the same
/// languages list them alike.
pub proof fn languages_list_alike(a: Seq<Seq<char>>, b: Seq<Seq<char>>)
    requires
        ascending(a),
        ascending(b),
        a.to_set() == b.to_set(),
    ensures
        a == b,
    decreases a.len(),
{
    if a.len() == 0 {
        if b.len() > 0 {
            assert(b.to_set().contains(b[0]));
            assert(a.to_set().contains(b[0]));
        }
        assert(a =~= b);
    } else {
        assert(a.to_set().contains(a[0]));
        assert(b.to_set().contains(a[0]));
        let j = choose|j: int| 0 <= j < b.len() && b[j] == a[0];
        assert(b.to_set().contains(b[0]));
        assert(a.to_set().contains(b[0]));
        let i = choose|i: int| 0 <= i < a.len() && a[i] == b[0];
        text::text_order(a[0], b[0], a[0]);
        if i > 0 {
            assert(text::text_before(a[0], a[i]));
        }
        if j > 0 {
            assert(text::text_before(b[0], b[j]));
        }
        assert(a[0] == b[0]);
        let x = a.drop_first();
        let y = b.drop_first();
        assert forall|t: Seq<char>| x.to_set().contains(t) implies y.to_set().contains(t) by {
            lemma_later(a, b, t);
        }
        assert forall|t: Seq<char>| y.to_set().contains(t) implies x.to_set().contains(t) by {
            lemma_later(b, a, t);
        }
        assert(x.to_set() =~= y.to_set());
        assert(ascending(x)) by {
            assert forall|p: int, q: int| 0 <= p < q < x.len() implies text::text_before(
                #[trigger] x[p],
                #[trigger] x[q],
            ) by {
                assert(text::text_before(a[p + 1], a[q + 1]));
            }
        }
        assert(ascending(y)) by {
            assert forall|p: int, q: int| 0 <= p < q < y.len() implies text::text_before(
                #[trigger] y[p],
                #[trigger] y[q],
            ) by {
                assert(text::text_before(b[p + 1], b[q + 1]));
            }
        }
        languages_list_alike(x, y);
        assert(a =~= seq![a[0]] + x);
        assert(b =~= seq![b[0]] + y);
    }
}

/// What stands behind the first of one list stands behind the first of the other.
proof fn lemma_later(a: Seq<Seq<char>>, b: Seq<Seq<char>>, t: Seq<char>)
    requires
        ascending(a),
        a.len() > 0,
        b.len() > 0,
        a[0] == b[0],
        a.to_set() == b.to_set(),
        a.drop_first().contains(t),
    ensures
        b.drop_first().contains(t),
{
    let k = choose|k: int| 0 <= k < a.drop_first().len() && a.drop_first()[k] == t;
    assert(a[k + 1] == t);
    assert(text::text_before(a[0], a[k + 1]));
    text::text_order(t, t, t);
    assert(a.to_set().contains(t));
    assert(b.to_set().contains(t));
    let m = choose|m: int| 0 <= m < b.len() && b[m] == t;
    assert(m > 0);
    assert(b.drop_first()[m - 1] == t);
}

/// Hindi and English together are dual audio. Hindi beside a multi-audio
/// marker probably is. Nothing without Hindi is, whatever else was heard.
pub proof fn dual_audio_needs_hindi(h: Heard)
    ensures
        confidence(h) is Yes <==> h.hindi && h.english,
        confidence(h) is Likely <==> h.hindi && !h.english && h.multi_marker,
        !h.hindi ==> confidence(h) is No,
{
}

/// A language counts wherever it was heard: listening to two texts hears what
/// either says, in either order, and can only make dual audio more likely.
pub proof fn either_text_can_say_it(a: Heard, b: Heard)
    ensures
        both(a, b) == both(b, a),
        both(a, a) == a,
        both(a, silence()) == a,
        both(a, b).hindi <==> a.hindi || b.hindi,
        both(a, b).english <==> a.english || b.english,
        both(a, b).multi_marker <==> a.multi_marker || b.multi_marker,
        forall|l: Seq<char>|
            #[trigger] both(a, b).others.contains(l) <==> a.others.contains(l)
                || b.others.contains(l),
        a.hindi && b.english ==> confidence(both(a, b)) is Yes,
        confidence(a) is Yes ==> confidence(both(a, b)) is Yes,
        confidence(a) is Likely ==> !(confidence(both(a, b)) is No),
{
    assert(both(a, b).others =~= both(b, a).others);
    assert(both(a, a).others =~= a.others);
    assert(both(a, silence()).others =~= a.others);
}

/// Only the Indian flag stands for Hindi, and only the British and the American
/// for English; no other flag makes a release dual.
pub proof fn three_flags_decide(cc: Seq<char>)
    ensures
        flagged(cc) is Some && (flagged(cc)->0).1 is Hindi <==> cc == "IN"@,
        flagged(cc) is Some && (flagged(cc)->0).1 is English <==> cc == "GB"@ || cc == "US"@,
        (flagged("IN"@)->0).0 == "Hindi"@,
        flagged("GB"@) == flagged("US"@),
        (flagged("GB"@)->0).0 == "English"@,
        flagged("PT"@) == flagged("BR"@),
        flagged("CN"@) == flagged("TW"@),
        flagged("ES"@) == flagged("MX"@),
        flagged("AR"@) == flagged("SA"@),
{
    reveal_strlit("IN");
    reveal_strlit("GB");
    reveal_strlit("US");
    reveal_strlit("IT");
    reveal_strlit("FR");
    reveal_strlit("DE");
    reveal_strlit("ES");
    reveal_strlit("PT");
    reveal_strlit("BR");
    reveal_strlit("RU");
    reveal_strlit("JP");
    reveal_strlit("KR");
    reveal_strlit("CN");
    reveal_strlit("TW");
    reveal_strlit("TR");
    reveal_strlit("NL");
    reveal_strlit("PL");
    reveal_strlit("SE");
    reveal_strlit("DK");
    reveal_strlit("NO");
    reveal_strlit("FI");
    reveal_strlit("GR");
    reveal_strlit("HU");
    reveal_strlit("RO");
    reveal_strlit("AR");
    reveal_strlit("SA");
    reveal_strlit("TH");
    reveal_strlit("VN");
    reveal_strlit("ID");
    reveal_strlit("LT");
    reveal_strlit("UA");
    reveal_strlit("CZ");
    reveal_strlit("BG");
    reveal_strlit("MX");
    assert("IN"@.len() == 2 && "IN"@[0] == 'I' && "IN"@[1] == 'N');
    assert("GB"@[0] == 'G' && "GB"@[1] == 'B' && "US"@[0] == 'U' && "US"@[1] == 'S');
    assert("IT"@[1] == 'T' && "ID"@[1] == 'D' && "GR"@[1] == 'R' && "UA"@[1] == 'A');
    assert("FR"@[0] == 'F' && "DE"@[0] == 'D' && "ES"@[0] == 'E' && "PT"@[0] == 'P');
    assert("BR"@[0] == 'B' && "RU"@[0] == 'R' && "JP"@[0] == 'J' && "KR"@[0] == 'K');
    assert("CN"@[0] == 'C' && "TW"@[0] == 'T' && "TR"@[0] == 'T' && "NL"@[0] == 'N');
    assert("PL"@[0] == 'P' && "SE"@[0] == 'S' && "DK"@[0] == 'D' && "NO"@[0] == 'N');
    assert("FI"@[0] == 'F' && "HU"@[0] == 'H' && "RO"@[0] == 'R' && "AR"@[0] == 'A');
    assert("SA"@[0] == 'S' && "TH"@[0] == 'T' && "VN"@[0] == 'V' && "LT"@[0] == 'L');
    assert("CZ"@[0] == 'C' && "BG"@[0] == 'B' && "MX"@[0] == 'M');
    assert("PT"@[1] == 'T' && "PL"@[1] == 'L' && "BR"@[1] == 'R' && "BG"@[1] == 'G');
    assert("CN"@[1] == 'N' && "CZ"@[1] == 'Z' && "SA"@[1] == 'A' && "SE"@[1] == 'E');
    assert("TW"@[1] == 'W' && "TR"@[1] == 'R' && "TH"@[1] == 'H');
}

/// A country's flag is its two letters written as the symbols next to each
/// other: a text with nothing but that pair among its symbols says what the
/// flag says, and a lone symbol or a pair that is torn apart says nothing.
pub proof fn flags_are_pairs(before: Seq<char>, a: char, between: Seq<char>, b: char, after: Seq<char>)
    requires
        '\u{1F1E6}' <= a <= '\u{1F1FF}',
        '\u{1F1E6}' <= b <= '\u{1F1FF}',
        forall|i: int| 0 <= i < before.len() ==> !is_indicator(#[trigger] before[i]),
        forall|i: int| 0 <= i < between.len() ==> !is_indicator(#[trigger] between[i]),
        forall|i: int| 0 <= i < after.len() ==> !is_indicator(#[trigger] after[i]),
    ensures
        heard_in_flags(before.push(a) + after) == silence(),
        between.len() > 0 ==> heard_in_flags(
            (before.push(a) + between).push(b) + after,
        ) == silence(),
        ({
            let cc = seq![
                (a as u32 - '\u{1F1E6}' as u32 + 'A' as u32) as char,
                (b as u32 - '\u{1F1E6}' as u32 + 'A' as u32) as char,
            ];
            let h = heard_in_flags(before.push(a).push(b) + after);
            match flagged(cc) {
                Some((_, Lang::Hindi)) => h == (Heard { hindi: true, ..silence() }),
                Some((_, Lang::English)) => h == (Heard { english: true, ..silence() }),
                Some((name, Lang::Other)) => h == (Heard { others: set![name], ..silence() }),
                None => h == silence(),
            }
        }),
{
    lemma_no_symbols(Seq::empty(), before);
    assert(Seq::<char>::empty() + before =~= before);
    let one = before.push(a);
    assert(one.drop_last() =~= before);
    assert(indicators(one) =~= seq![before.len() as int]);
    lemma_no_symbols(one, after);
    assert(indicators(one + after) =~= seq![before.len() as int]);
    lemma_no_symbols(one, between);
    let torn = (one + between).push(b);
    assert(torn.drop_last() =~= one + between);
    assert(indicators(torn) =~= seq![before.len() as int, before.len() as int + 1 + between.len()]);
    lemma_no_symbols(torn, after);
    reveal_with_fuel(heard_in_pairs, 2);
    let pair = one.push(b);
    assert(pair.drop_last() =~= one);
    assert(indicators(pair) =~= seq![before.len() as int, before.len() as int + 1]);
    lemma_no_symbols(pair, after);
    let whole = pair + after;
    let cc = seq![
        (a as u32 - '\u{1F1E6}' as u32 + 'A' as u32) as char,
        (b as u32 - '\u{1F1E6}' as u32 + 'A' as u32) as char,
    ];
    assert(whole[before.len() as int] == a && whole[before.len() as int + 1] == b);
    assert(flag(whole, 0) == Some(cc));
    let h = heard_in_flags(whole);
    assert(h == with_flag(silence(), Some(cc)));
    match flagged(cc) {
        Some((name, Lang::Other)) => {
            assert(silence().others.insert(name) =~= set![name]);
            assert(h == (Heard { others: set![name], ..silence() }));
        },
        _ => {},
    }
}

proof fn lemma_no_symbols(s: Seq<char>, t: Seq<char>)
    requires
        forall|i: int| 0 <= i < t.len() ==> !is_indicator(#[trigger] t[i]),
    ensures
        indicators(s + t) == indicators(s),
    decreases t.len(),
{
    if t.len() == 0 {
        assert(s + t =~= s);
    } else {
        assert((s + t).drop_last() =~= s + t.drop_last());
        lemma_no_symbols(s, t.drop_last());
        assert((s + t).last() == t.last());
    }
}

/// What a release name says, word by word: Hindi and English each by their own
/// words, whole or short, both at once where the two run together, several
/// tracks by the markers, and each of the other languages of the region by its
/// name.
pub proof fn names_are_heard_by_their_words(s: Seq<char>)
    ensures
        ({
            let h = heard_in_name(s);
            let run = text::flattened(s);
            let together = text::holds(run, "hindienglish"@) || text::holds(run, "hindieng"@)
                || text::holds(run, "enghindi"@);
            &&& h.hindi <==> together || text::has_words(s, "hindi"@) || text::has_words(s, "hin"@)
                || text::has_words(s, "hindi dd"@) || text::has_words(s, "hindiorg"@)
            &&& h.english <==> together || text::has_words(s, "english"@) || text::has_words(
                s,
                "eng"@,
            ) || text::has_words(s, "english dd"@)
            &&& together ==> confidence(h) is Yes
            &&& h.multi_marker <==> text::has_words(s, "dual audio"@) || text::has_words(
                s,
                "dual audios"@,
            ) || text::has_words(s, "dualaudio"@) || text::has_words(s, "dual lang"@)
                || text::has_words(s, "multi audio"@) || text::has_words(s, "multiaudio"@)
                || text::has_words(s, "multi lang"@)
            &&& text::has_words(s, "hindi"@) && text::has_words(s, "dual audio"@)
                ==> !(confidence(h) is No)
            &&& forall|l: Seq<char>| #[trigger]
                h.others.contains(l) <==> {
                    ||| l == "Tamil"@ && text::has_words(s, "tamil"@)
                    ||| l == "Telugu"@ && text::has_words(s, "telugu"@)
                    ||| l == "Malayalam"@ && text::has_words(s, "malayalam"@)
                    ||| l == "Kannada"@ && text::has_words(s, "kannada"@)
                    ||| l == "Bengali"@ && text::has_words(s, "bengali"@)
                    ||| l == "Bengali"@ && text::has_words(s, "bangla"@)
                    ||| l == "Marathi"@ && text::has_words(s, "marathi"@)
                    ||| l == "Punjabi"@ && text::has_words(s, "punjabi"@)
                    ||| l == "Urdu"@ && text::has_words(s, "urdu"@)
                }
        }),
{
}

/// The label names every language that is spoken, and says so where there are
/// two tracks.
pub proof fn the_label_names_what_is_spoken(a: Audio)
    ensures
        a.hindi && a.english && a.others@.len() == 0 ==> audio_label(a) == "Dual "@ + "Hindi"@
            + "+"@ + "English"@,
        a.hindi && !a.english && !a.multi_marker && a.others@.len() == 0 ==> audio_label(a)
            == "Hindi"@,
        a.hindi && !a.english && a.multi_marker && a.others@.len() == 0 ==> audio_label(a)
            == "Dual? "@ + "Hindi"@,
        !a.hindi && a.english && a.others@.len() == 0 ==> audio_label(a) == "English"@,
        !a.hindi && !a.english && a.others@.len() == 1 ==> audio_label(a) == a.others@[0],
{
    reveal_with_fuel(text::join, 3);
    if a.others@.len() == 0 {
        assert(a.others@ =~= Seq::<Seq<char>>::empty());
        if a.hindi && a.english {
            let names = seq!["Hindi"@, "English"@];
            assert(spoken(a) =~= names);
            assert(names.drop_last() =~= seq!["Hindi"@]);
            assert("Dual "@ + ("Hindi"@ + "+"@ + "English"@) =~= "Dual "@ + "Hindi"@ + "+"@
                + "English"@);
        } else if a.hindi {
            assert(spoken(a) =~= seq!["Hindi"@]);
        } else if a.english {
            assert(spoken(a) =~= seq!["English"@]);
        }
    } else if !a.hindi && !a.english && a.others@.len() == 1 {
        assert(spoken(a) =~= seq![a.others@[0]]);
    }
}

} // verus!
