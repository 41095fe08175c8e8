//! Command line.
//!
//! Flags are plain `--name value` pairs. A flag that is absent is told apart from
//! one that was given its default value.
use vstd::prelude::*;
use vstd::string::*;

use crate::binary32;
use crate::binary32::Binary32;
use crate::decimal;
use crate::geometry;
use crate::geometry::Scene;
use crate::text;

verus! {

/// The present modes of the graphics library, with its variants.
#[verifier::external_type_specification]
pub struct ExPresentMode(wgpu::PresentMode);

/// The present mode that the user asks for (`--present-mode`).
#[derive(Clone, Copy, Debug, PartialEq, Eq, Structural)]
pub enum PresentModeArg {
    Immediate,
    Mailbox,
    Fifo,
}

/// The names that present modes go by.
pub open spec fn named_mode(name: Seq<char>) -> Option<PresentModeArg> {
    if name == "immediate"@ {
        Some(PresentModeArg::Immediate)
    } else if name == "mailbox"@ {
        Some(PresentModeArg::Mailbox)
    } else if name == "fifo"@ {
        Some(PresentModeArg::Fifo)
    } else {
        None
    }
}

impl PresentModeArg {
    pub fn parse(name: &str) -> (r: Option<PresentModeArg>)
        ensures
            r == named_mode(name@),
    {
        if text::same(name, "immediate") {
            Some(PresentModeArg::Immediate)
        } else if text::same(name, "mailbox") {
            Some(PresentModeArg::Mailbox)
        } else if text::same(name, "fifo") {
            Some(PresentModeArg::Fifo)
        } else {
            None
        }
    }

    /// The mode of the graphics library that the argument stands for.
    pub open spec fn mode(self) -> wgpu::PresentMode {
        match self {
            PresentModeArg::Immediate => wgpu::PresentMode::Immediate,
            PresentModeArg::Mailbox => wgpu::PresentMode::Mailbox,
            PresentModeArg::Fifo => wgpu::PresentMode::Fifo,
        }
    }

    pub fn to_wgpu(self) -> (r: wgpu::PresentMode)
        ensures
            r == self.mode(),
    {
        match self {
            PresentModeArg::Immediate => wgpu::PresentMode::Immediate,
            PresentModeArg::Mailbox => wgpu::PresentMode::Mailbox,
            PresentModeArg::Fifo => wgpu::PresentMode::Fifo,
        }
    }
}

/// A picture to be written instead of opening a window.
#[derive(Debug)]
pub struct Screenshot {
    pub path: String,
    pub width: u32,
    pub height: u32,
}

/// What a `Screenshot` asks for.
#[verifier::ext_equal]
pub struct Shot {
    pub path: Seq<char>,
    pub width: u32,
    pub height: u32,
}

impl View for Screenshot {
    type V = Shot;

    open spec fn view(&self) -> Shot {
        Shot { path: self.path@, width: self.width, height: self.height }
    }
}

impl PartialEq for Screenshot {
    fn eq(&self, other: &Screenshot) -> (r: bool) {
        self.path == other.path && self.width == other.width && self.height == other.height
    }
}

impl vstd::std_specs::cmp::PartialEqSpecImpl for Screenshot {
    open spec fn obeys_eq_spec() -> bool {
        true
    }

    open spec fn eq_spec(&self, other: &Screenshot) -> bool {
        self.path@ == other.path@ && self.width == other.width && self.height == other.height
    }
}

/// The command line as the program takes it.
#[derive(Debug)]
pub struct Cli {
    /// `None` where the flag is absent, so that the default of the mode applies.
    pub persistence: Option<Binary32>,
    pub scene: Scene,
    pub screenshot: Option<Screenshot>,
    pub present_mode: Option<PresentModeArg>,
    pub fullscreen: bool,
}

/// What a `Cli` says.
#[verifier::ext_equal]
pub struct Invocation {
    pub persistence: Option<Binary32>,
    pub scene: Scene,
    pub screenshot: Option<Shot>,
    pub present_mode: Option<PresentModeArg>,
    pub fullscreen: bool,
}

impl View for Cli {
    type V = Invocation;

    open spec fn view(&self) -> Invocation {
        Invocation {
            persistence: self.persistence,
            scene: self.scene,
            screenshot: match self.screenshot {
                Some(shot) => Some(shot@),
                None => None,
            },
            present_mode: self.present_mode,
            fullscreen: self.fullscreen,
        }
    }
}

/// The arguments as words.
pub open spec fn words(args: Seq<String>) -> Seq<Seq<char>> {
    args.map_values(|a: String| a@)
}

/// The place of the first `name`, or the number of words where there is none.
pub open spec fn place(words: Seq<Seq<char>>, name: Seq<char>) -> nat
    decreases words.len(),
{
    if words.len() == 0 || words[0] == name {
        0
    } else {
        1 + place(words.skip(1), name)
    }
}

/// The word that follows the first `name`.
pub open spec fn value_of(words: Seq<Seq<char>>, name: Seq<char>) -> Option<Seq<char>> {
    let p = place(words, name) as int;
    if p + 1 < words.len() {
        Some(words[p + 1])
    } else {
        None
    }
}

/// The 32-bit number that a text stands for: digits, with a plus sign before
/// them or none.
pub open spec fn whole32(s: Seq<char>) -> Option<u32> {
    let digits = if s.len() > 0 && s[0] == '+' {
        s.skip(1)
    } else {
        s
    };
    if digits.len() > 0 && text::all_digits(digits) && text::digits_value(digits) <= u32::MAX {
        Some(text::digits_value(digits) as u32)
    } else {
        None
    }
}

/// The two sides that a text of the form `WxH` gives.
pub open spec fn size_of_picture(s: Seq<char>) -> Option<(u32, u32)> {
    let p = text::first_of(s, 'x', 'x') as int;
    if p < s.len() && whole32(s.take(p)) is Some && whole32(s.skip(p + 1)) is Some {
        Some((whole32(s.take(p))->0, whole32(s.skip(p + 1))->0))
    } else {
        None
    }
}

pub open spec fn is_flag(s: Seq<char>) -> bool {
    s.len() >= 2 && s[0] == '-' && s[1] == '-'
}

/// The words behind `--screenshot` that belong to it: at most two, and none from
/// the next flag on.
pub open spec fn positionals(words: Seq<Seq<char>>, from: int) -> Seq<Seq<char>> {
    if from >= words.len() || is_flag(words[from]) {
        Seq::empty()
    } else if from + 1 >= words.len() || is_flag(words[from + 1]) {
        seq![words[from]]
    } else {
        seq![words[from], words[from + 1]]
    }
}

/// The last size among the words.
pub open spec fn picked_size(words: Seq<Seq<char>>) -> Option<(u32, u32)>
    decreases words.len(),
{
    if words.len() == 0 {
        None
    } else if size_of_picture(words.last()) is Some {
        size_of_picture(words.last())
    } else {
        picked_size(words.drop_last())
    }
}

/// The first of the words that is no size.
pub open spec fn picked_path(words: Seq<Seq<char>>) -> Option<Seq<char>>
    decreases words.len(),
{
    if words.len() == 0 {
        None
    } else if picked_path(words.drop_last()) is Some {
        picked_path(words.drop_last())
    } else if size_of_picture(words.last()) is None {
        Some(words.last())
    } else {
        None
    }
}

/// What `--screenshot [path] [WxH]` asks for. Both words may be left out, and
/// they may come in either order.
pub open spec fn shot(words: Seq<Seq<char>>) -> Option<Shot> {
    let p = place(words, "--screenshot"@) as int;
    if p >= words.len() {
        None
    } else {
        let given = positionals(words, p + 1);
        let size = match picked_size(given) {
            Some(size) => size,
            None => (1280, 960),
        };
        Some(
            Shot {
                path: match picked_path(given) {
                    Some(path) => path,
                    None => "docs/screenshot.png"@,
                },
                width: size.0,
                height: size.1,
            },
        )
    }
}

/// What `{:?}` prints of a text: the text in double quotes, with its special
/// characters escaped.
pub uninterp spec fn quoted(s: Seq<char>) -> Seq<char>;

/// The message on a value that is not understood.
pub open spec fn complaint(what: Seq<char>, value: Seq<char>) -> Seq<char> {
    what + " (got "@ + quoted(value) + ")"@
}

/// What a command line says, or the message for the user where it is wrong. The
/// persistence is looked at first, then the scene, then the present mode.
pub open spec fn reading(words: Seq<Seq<char>>) -> Result<Invocation, Seq<char>> {
    let persistence = value_of(words, "--persistence"@);
    let scene = value_of(words, "--scene"@);
    let mode = value_of(words, "--present-mode"@);
    if persistence is Some && decimal::parsed(persistence->0) is None {
        Err(complaint("--persistence expects seconds"@, persistence->0))
    } else if scene is Some && geometry::named_scene(scene->0) is None {
        Err(complaint("--scene expects one of: cube, lissajous"@, scene->0))
    } else if mode is Some && named_mode(mode->0) is None {
        Err(complaint("--present-mode expects one of: immediate, mailbox, fifo"@, mode->0))
    } else {
        Ok(
            Invocation {
                persistence: match persistence {
                    Some(v) => Some(decimal::parsed(v)->0.larger(binary32::signed(false, 0))),
                    None => None,
                },
                scene: match scene {
                    Some(name) => geometry::named_scene(name)->0,
                    None => Scene::Cube,
                },
                screenshot: shot(words),
                present_mode: match mode {
                    Some(name) => named_mode(name),
                    None => None,
                },
                fullscreen: words.contains("--fullscreen"@),
            },
        )
    }
}

proof fn lemma_place(words: Seq<Seq<char>>, name: Seq<char>, i: nat)
    requires
        i <= words.len(),
        forall|j: int| 0 <= j < i ==> words[j] != name,
        i < words.len() ==> words[i as int] == name,
    ensures
        place(words, name) == i,
    decreases words.len(),
{
    if words.len() > 0 && i > 0 {
        assert(words[0] != name);
        assert forall|j: int| 0 <= j < i - 1 implies words.skip(1)[j] != name by {
            assert(words.skip(1)[j] == words[j + 1]);
        }
        lemma_place(words.skip(1), name, (i - 1) as nat);
    }
}

/// The place of the first argument `name`, or the number of arguments.
fn find_flag(args: &[String], name: &str) -> (i: usize)
    ensures
        i == place(words(args@), name@),
        i <= args@.len(),
{
    let mut i: usize = 0;
    while i < args.len()
        invariant
            i <= args@.len(),
            forall|j: int| 0 <= j < i ==> args@[j]@ != name@,
        decreases args@.len() - i,
    {
        if text::same(args[i].as_str(), name) {
            proof {
                lemma_place(words(args@), name@, i as nat);
            }
            return i;
        }
        i = i + 1;
    }
    proof {
        lemma_place(words(args@), name@, i as nat);
    }
    i
}

/// The argument that follows the first argument `name`.
pub fn flag_value<'a>(args: &'a [String], name: &str) -> (r: Option<&'a str>)
    ensures
        match r {
            Some(v) => value_of(words(args@), name@) == Some(v@),
            None => value_of(words(args@), name@) is None,
        },
{
    let i: usize = find_flag(args, name);
    if i < args.len() && i + 1 < args.len() {
        Some(args[i + 1].as_str())
    } else {
        None
    }
}

/// Whether `name` is among the arguments.
pub fn flag_present(args: &[String], name: &str) -> (r: bool)
    ensures
        r == words(args@).contains(name@),
{
    let mut i: usize = 0;
    while i < args.len()
        invariant
            i <= args@.len(),
            forall|j: int| 0 <= j < i ==> args@[j]@ != name@,
        decreases args@.len() - i,
    {
        if text::same(args[i].as_str(), name) {
            proof {
                assert(words(args@)[i as int] == name@);
            }
            return true;
        }
        i = i + 1;
    }
    proof {
        assert forall|j: int| 0 <= j < words(args@).len() implies words(args@)[j] != name@ by {
            assert(words(args@)[j] == args@[j]@);
        }
    }
    false
}

/// `format!` with the `Debug` implementation of `str`. Its result depends on the
/// text alone; which characters are escaped, and how, is left to the name.
#[verifier::external_body]
fn debug_text(s: &str) -> (r: String)
    ensures
        r@ == quoted(s@),
{
    format!("{s:?}")
}

/// The message on a value that is not understood.
pub(crate) fn complain(what: &str, value: &str) -> (r: String)
    ensures
        r@ == complaint(what@, value@),
{
    let mut r: String = what.to_owned();
    r.append(" (got ");
    r.append(debug_text(value).as_str());
    r.append(")");
    r
}

/// The number that the characters from `from` to `to` stand for.
fn parse_whole32(s: &Vec<char>, from: usize, to: usize) -> (r: Option<u32>)
    requires
        from <= to <= s@.len(),
    ensures
        r == whole32(s@.subrange(from as int, to as int)),
{
    let ghost word = s@.subrange(from as int, to as int);
    let start: usize = if from < to && s[from] == '+' {
        from + 1
    } else {
        from
    };
    let ghost digits = s@.subrange(start as int, to as int);
    proof {
        if start > from {
            assert(word[0] == '+');
            assert(word.skip(1) =~= digits);
        } else {
            if word.len() > 0 {
                assert(word[0] == s@[from as int]);
            }
            assert(word =~= digits);
        }
    }
    if start == to || !text::only_digits(s, start, to) {
        return None;
    }
    let mut value: u64 = 0;
    let mut i: usize = start;
    proof {
        assert(digits.take(0) =~= Seq::<char>::empty());
    }
    while i < to
        invariant
            start <= i <= to <= s@.len(),
            digits == s@.subrange(start as int, to as int),
            text::all_digits(digits),
            value <= 0x1_0000_0000,
            value <= u32::MAX ==> value == text::digits_value(digits.take(i - start)),
            value > u32::MAX ==> text::digits_value(digits.take(i - start)) > u32::MAX,
        decreases to - i,
    {
        proof {
            assert(digits.take(i + 1 - start).drop_last() =~= digits.take(i - start));
            assert(text::is_digit(digits[i - start]));
            assert(digits.take(i + 1 - start).last() == s@[i as int]);
        }
        let digit: u64 = (s[i] as u32 - '0' as u32) as u64;
        let next: u64 = 10 * value + digit;
        value = if next > u32::MAX as u64 {
            0x1_0000_0000
        } else {
            next
        };
        i = i + 1;
    }
    proof {
        assert(digits.take(to - start) =~= digits);
    }
    if value > u32::MAX as u64 {
        None
    } else {
        Some(value as u32)
    }
}

/// The two sides that a text of the form `WxH` gives.
pub fn parse_size(s: &str) -> (r: Option<(u32, u32)>)
    ensures
        r == size_of_picture(s@),
{
    let chars: Vec<char> = text::characters(s);
    proof {
        assert(chars@.skip(0) =~= s@);
    }
    let p: usize = text::find(&chars, 0, 'x', 'x');
    if p == chars.len() {
        return None;
    }
    proof {
        assert(s@.take(p as int) =~= chars@.subrange(0, p as int));
        assert(s@.skip(p + 1) =~= chars@.subrange(p + 1, s@.len() as int));
    }
    match (parse_whole32(&chars, 0, p), parse_whole32(&chars, p + 1, chars.len())) {
        (Some(w), Some(h)) => Some((w, h)),
        _ => None,
    }
}

/// Whether an argument is a flag.
fn looks_like_flag(s: &str) -> (r: bool)
    ensures
        r == is_flag(s@),
{
    let chars: Vec<char> = text::characters(s);
    chars.len() >= 2 && chars[0] == '-' && chars[1] == '-'
}

/// What `--screenshot` asks for, if it is given.
fn parse_shot(args: &[String]) -> (r: Option<Screenshot>)
    ensures
        match r {
            Some(s) => shot(words(args@)) == Some(s@),
            None => shot(words(args@)) is None,
        },
{
    let p: usize = find_flag(args, "--screenshot");
    if p == args.len() {
        return None;
    }
    let ghost all = words(args@);
    let ghost given = positionals(all, p + 1);
    let mut path: Option<String> = None;
    let mut size: Option<(u32, u32)> = None;
    let first: usize = p + 1;
    let left: usize = args.len() - first;
    let most: usize = if left < 2 {
        left
    } else {
        2
    };
    let mut i: usize = 0;
    let mut open: bool = true;
    proof {
        assert(given.take(0) =~= Seq::<Seq<char>>::empty());
    }
    while open && i < most
        invariant
            all == words(args@),
            first == p + 1,
            first + left == args@.len(),
            first + left <= usize::MAX,
            most <= left,
            most <= 2,
            most == left || most == 2,
            i <= most,
            given == positionals(all, p + 1),
            i <= given.len(),
            !open ==> i == given.len(),
            picked_size(given.take(i as int)) == size,
            match path {
                Some(path) => picked_path(given.take(i as int)) == Some(path@),
                None => picked_path(given.take(i as int)) is None,
            },
        decreases most - i + (if open { 1int } else { 0int }),
    {
        let word: &String = &args[first + i];
        assert(word@ == all[first + i]);
        if looks_like_flag(word.as_str()) {
            open = false;
        } else {
            proof {
                assert(given.len() > i);
                assert(given.take(i + 1).drop_last() =~= given.take(i as int));
                assert(given.take(i + 1).last() == word@);
            }
            match parse_size(word.as_str()) {
                Some(wh) => {
                    size = Some(wh);
                },
                None => {
                    if path.is_none() {
                        path = Some(word.clone());
                    }
                },
            }
            i = i + 1;
        }
    }
    proof {
        assert(i == given.len());
        assert(given.take(i as int) =~= given);
    }
    let (width, height): (u32, u32) = match size {
        Some(wh) => wh,
        None => (1280, 960),
    };
    let path: String = match path {
        Some(path) => path,
        None => "docs/screenshot.png".to_owned(),
    };
    Some(Screenshot { path, width, height })
}

/// Reads the command line, the name of the program in front. An error is a
/// message for the user.
pub fn parse(args: &[String]) -> (r: Result<Cli, String>)
    ensures
        match r {
            Ok(cli) => reading(words(args@)) == Ok::<Invocation, Seq<char>>(cli@),
            Err(message) => reading(words(args@)) == Err::<Invocation, Seq<char>>(message@),
        },
{
    let persistence: Option<Binary32> = match flag_value(args, "--persistence") {
        None => None,
        Some(v) => match decimal::parse(v) {
            Some(seconds) => Some(seconds.max(Binary32::zero())),
            None => {
                return Err(complain("--persistence expects seconds", v));
            },
        },
    };
    let scene: Scene = match flag_value(args, "--scene") {
        None => Scene::default(),
        Some(name) => match Scene::parse(name) {
            Some(scene) => scene,
            None => {
                return Err(complain("--scene expects one of: cube, lissajous", name));
            },
        },
    };
    let present_mode: Option<PresentModeArg> = match flag_value(args, "--present-mode") {
        None => None,
        Some(name) => match PresentModeArg::parse(name) {
            Some(mode) => Some(mode),
            None => {
                return Err(
                    complain("--present-mode expects one of: immediate, mailbox, fifo", name),
                );
            },
        },
    };
    let screenshot: Option<Screenshot> = parse_shot(args);
    let fullscreen: bool = flag_present(args, "--fullscreen");
    Ok(Cli { persistence, scene, screenshot, present_mode, fullscreen })
}

/// The persistence is never negative and always a number, whatever was given.
pub proof fn law_persistence_is_not_negative(words: Seq<Seq<char>>)
    ensures
        reading(words) matches Ok(cli) ==> (cli.persistence matches Some(seconds)
            ==> binary32::signed(false, 0).at_most(seconds)),
{
    if reading(words) is Ok && value_of(words, "--persistence"@) is Some {
        let given = decimal::parsed(value_of(words, "--persistence"@)->0)->0;
        binary32::lemma_units_order(given.code(), 0);
    }
}

/// A flag that ends the command line counts as absent.
pub proof fn law_last_flag_has_no_value(before: Seq<Seq<char>>, name: Seq<char>)
    requires
        !before.contains(name),
    ensures
        value_of(before.push(name), name) is None,
{
    lemma_place(before.push(name), name, before.len());
}

/// The path and the size of a picture may come in either order.
pub proof fn law_path_and_size_commute(
    before: Seq<Seq<char>>,
    path: Seq<char>,
    size: Seq<char>,
    after: Seq<Seq<char>>,
)
    requires
        !before.contains("--screenshot"@),
        !is_flag(path),
        size_of_picture(path) is None,
        size_of_picture(size) is Some,
    ensures
        ({
            let flag = "--screenshot"@;
            let one = before + seq![flag, path, size] + after;
            let other = before + seq![flag, size, path] + after;
            &&& shot(one) == shot(other)
            &&& shot(one) matches Some(picture) && picture.path == path && size_of_picture(size)
                == Some((picture.width, picture.height))
        }),
{
    let flag = "--screenshot"@;
    let one = before + seq![flag, path, size] + after;
    let other = before + seq![flag, size, path] + after;
    let n = before.len() as int;
    assert forall|j: int| 0 <= j < n implies one[j] != flag && other[j] != flag by {
        assert(before[j] != flag);
    }
    lemma_place(one, flag, n as nat);
    lemma_place(other, flag, n as nat);
    lemma_size_is_no_flag(size);
    assert(one[n + 1] == path && one[n + 2] == size);
    assert(other[n + 1] == size && other[n + 2] == path);
    assert(positionals(one, n + 1) == seq![path, size]);
    assert(positionals(other, n + 1) == seq![size, path]);
    reveal_with_fuel(picked_size, 3);
    reveal_with_fuel(picked_path, 3);
    assert(seq![path, size].drop_last() =~= seq![path]);
    assert(seq![size, path].drop_last() =~= seq![size]);
    assert(seq![path].drop_last() =~= Seq::<Seq<char>>::empty());
    assert(seq![size].drop_last() =~= Seq::<Seq<char>>::empty());
}

proof fn lemma_size_is_no_flag(s: Seq<char>)
    requires
        size_of_picture(s) is Some,
    ensures
        !is_flag(s),
{
    let p = text::first_of(s, 'x', 'x') as int;
    let front = s.take(p);
    assert(whole32(front) is Some);
    assert(front.len() > 0);
    assert(s[0] == front[0]);
    if s[0] == '-' {
        assert(front[0] != '+');
        assert(text::is_digit(front[0]));
    }
}

/// What follows the first of a flag is its value; a flag that is absent has none.
pub proof fn law_first_flag_counts(words: Seq<Seq<char>>, name: Seq<char>, p: int)
    ensures
        !words.contains(name) ==> value_of(words, name) is None,
        0 <= p < words.len() && words[p] == name && (forall|j: int| 0 <= j < p ==> words[j] != name)
            ==> value_of(words, name) == (if p + 1 < words.len() {
            Some(words[p + 1])
        } else {
            None
        }),
{
    if !words.contains(name) {
        assert forall|j: int| 0 <= j < words.len() implies words[j] != name by {
            assert(words.contains(words[j]));
        }
        lemma_place(words, name, words.len());
    }
    if 0 <= p < words.len() && words[p] == name && (forall|j: int| 0 <= j < p ==> words[j] != name) {
        lemma_place(words, name, p as nat);
    }
}

/// Every scene and every present mode has one name, and no other.
pub proof fn law_names_are_told_apart(name: Seq<char>)
    ensures
        geometry::named_scene(name) == Some(Scene::Cube) <==> name == "cube"@,
        geometry::named_scene(name) == Some(Scene::Lissajous) <==> name == "lissajous"@,
        geometry::named_scene(name) == Some(Scene::Ship) <==> name == "ship"@,
        geometry::named_scene(name) == Some(Scene::Ufo) <==> name == "ufo"@,
        geometry::named_scene(name) == Some(Scene::Draw) <==> name == "draw"@,
        named_mode(name) == Some(PresentModeArg::Immediate) <==> name == "immediate"@,
        named_mode(name) == Some(PresentModeArg::Mailbox) <==> name == "mailbox"@,
        named_mode(name) == Some(PresentModeArg::Fifo) <==> name == "fifo"@,
{
    reveal_strlit("cube");
    reveal_strlit("lissajous");
    reveal_strlit("ship");
    reveal_strlit("ufo");
    reveal_strlit("draw");
    reveal_strlit("immediate");
    reveal_strlit("mailbox");
    reveal_strlit("fifo");
    assert("cube"@[0] == 'c' && "ship"@[0] == 's' && "draw"@[0] == 'd');
    assert("cube"@.len() == 4 && "lissajous"@.len() == 9 && "ship"@.len() == 4);
    assert("ufo"@.len() == 3 && "draw"@.len() == 4);
    assert("immediate"@.len() == 9 && "mailbox"@.len() == 7 && "fifo"@.len() == 4);
}

/// A command line that is accepted is taken at its word. Every flag that has a value sets
/// what it names, and nothing else does; what is not given has its default. A persistence
/// is the number that was written, and nothing where that is below zero or no number.
pub proof fn law_flags_are_taken_at_their_word(words: Seq<Seq<char>>)
    ensures
        reading(words) matches Ok(cli) ==> {
            &&& value_of(words, "--scene"@) is None ==> cli.scene == Scene::Cube
            &&& value_of(words, "--scene"@) matches Some(v) ==> geometry::named_scene(v) == Some(
                cli.scene,
            )
            &&& value_of(words, "--present-mode"@) is None ==> cli.present_mode is None
            &&& value_of(words, "--present-mode"@) matches Some(v) ==> cli.present_mode is Some
                && named_mode(v) == cli.present_mode
            &&& value_of(words, "--persistence"@) is None ==> cli.persistence is None
            &&& value_of(words, "--persistence"@) matches Some(v) ==> {
                &&& decimal::parsed(v) matches Some(x) && cli.persistence matches Some(y) && {
                    &&& binary32::signed(false, 0).below(x) ==> y == x
                    &&& !binary32::signed(false, 0).below(x) ==> y.code() == 0
                }
            }
            &&& cli.fullscreen <==> words.contains("--fullscreen"@)
            &&& cli.screenshot is Some <==> words.contains("--screenshot"@)
        },
        reading(words) is Err <==> {
            ||| value_of(words, "--persistence"@) matches Some(v) && decimal::parsed(v) is None
            ||| value_of(words, "--scene"@) matches Some(v) && geometry::named_scene(v) is None
            ||| value_of(words, "--present-mode"@) matches Some(v) && named_mode(v) is None
        },
{
    let flag = "--screenshot"@;
    if words.contains(flag) {
        lemma_contained(words, flag);
    } else {
        assert forall|j: int| 0 <= j < words.len() implies words[j] != flag by {
            assert(words.contains(words[j]));
        }
        lemma_place(words, flag, words.len());
    }
    if value_of(words, "--persistence"@) is Some {
        let given = decimal::parsed(value_of(words, "--persistence"@)->0);
        if given is Some {
            binary32::lemma_units_order(given->0.code(), 0);
            binary32::lemma_units_order(0, 0);
        }
    }
}

/// A word that is there has a place.
proof fn lemma_contained(words: Seq<Seq<char>>, name: Seq<char>)
    requires
        words.contains(name),
    ensures
        place(words, name) < words.len(),
    decreases words.len(),
{
    let i = choose|i: int| 0 <= i < words.len() && words[i] == name;
    if words[0] != name {
        assert(words.skip(1)[i - 1] == name);
        lemma_contained(words.skip(1), name);
    }
}

/// A picture is 1280 by 960 and goes to its usual place where nothing else is asked for;
/// the words after the flag change one or the other, and a size changes nothing but the
/// size.
pub proof fn law_pictures_have_defaults(before: Seq<Seq<char>>, word: Seq<char>)
    requires
        !before.contains("--screenshot"@),
        !is_flag(word),
    ensures
        ({
            let bare = shot(before.push("--screenshot"@));
            let with = shot(before.push("--screenshot"@).push(word));
            &&& bare matches Some(picture) && picture.path == "docs/screenshot.png"@
                && picture.width == 1280 && picture.height == 960
            &&& with matches Some(picture) && match size_of_picture(word) {
                Some(size) => picture.path == "docs/screenshot.png"@ && (
                    picture.width,
                    picture.height,
                ) == size,
                None => picture.path == word && picture.width == 1280 && picture.height == 960,
            }
        }),
{
    let flag = "--screenshot"@;
    let bare = before.push(flag);
    let with = bare.push(word);
    let n = before.len();
    assert forall|j: int| 0 <= j < n implies bare[j] != flag && with[j] != flag by {
        assert(before.contains(before[j]));
    }
    lemma_place(bare, flag, n);
    lemma_place(with, flag, n);
    assert(positionals(bare, n as int + 1) == Seq::<Seq<char>>::empty());
    assert(with[n as int + 1] == word);
    assert(positionals(with, n as int + 1) == seq![word]);
    reveal_with_fuel(picked_size, 2);
    reveal_with_fuel(picked_path, 2);
    assert(seq![word].drop_last() =~= Seq::<Seq<char>>::empty());
}

/// The sides of a picture are the numbers before and after an x, written with digits.
pub proof fn law_sizes_are_two_numbers(wide: Seq<char>, tall: Seq<char>)
    requires
        wide.len() > 0,
        tall.len() > 0,
        text::all_digits(wide),
        text::all_digits(tall),
    ensures
        size_of_picture(wide + seq!['x'] + tall) == (if text::digits_value(wide) <= u32::MAX
            && text::digits_value(tall) <= u32::MAX {
            Some((text::digits_value(wide) as u32, text::digits_value(tall) as u32))
        } else {
            None
        }),
        size_of_picture(wide) is None,
{
    let s = wide + seq!['x'] + tall;
    let n = wide.len();
    assert forall|j: int| 0 <= j < n implies s[j] != 'x' && wide[j] != 'x' by {
        assert(text::is_digit(wide[j]));
    }
    text::lemma_first_of(s, 'x', 'x', n);
    text::lemma_first_of(wide, 'x', 'x', n);
    assert(s.take(n as int) =~= wide);
    assert(s.skip(n as int + 1) =~= tall);
    assert(text::is_digit(wide[0]));
    assert(text::is_digit(tall[0]));
}

/// The command line is read as it is written.
pub proof fn law_command_lines_are_read(args: &[String], r: Result<Cli, String>)
    requires
        call_ensures(parse, (args,), r),
    ensures
        r matches Ok(cli) ==> {
            let all = words(args@);
            &&& value_of(all, "--scene"@) is None ==> cli.scene == Scene::Cube
            &&& value_of(all, "--scene"@) matches Some(v) ==> geometry::named_scene(v) == Some(
                cli.scene,
            )
            &&& value_of(all, "--present-mode"@) is None ==> cli.present_mode is None
            &&& value_of(all, "--present-mode"@) matches Some(v) ==> cli.present_mode is Some
                && named_mode(v) == cli.present_mode
            &&& value_of(all, "--persistence"@) is None ==> cli.persistence is None
            &&& value_of(all, "--persistence"@) matches Some(v) ==> {
                &&& decimal::parsed(v) matches Some(x) && cli.persistence matches Some(y) && {
                    &&& binary32::signed(false, 0).below(x) ==> y == x
                    &&& !binary32::signed(false, 0).below(x) ==> y.code() == 0
                }
            }
            &&& cli.fullscreen <==> all.contains("--fullscreen"@)
            &&& cli.screenshot is Some <==> all.contains("--screenshot"@)
        },
        r is Err <==> reading(words(args@)) is Err,
{
    law_flags_are_taken_at_their_word(words(args@));
}

/// The first mistake is named, with what was given: that of the persistence before that of
/// the scene, and that before that of the present mode.
pub proof fn law_first_mistake_is_named(words: Seq<Seq<char>>)
    ensures
        ({
            let seconds = value_of(words, "--persistence"@);
            let scene = value_of(words, "--scene"@);
            let mode = value_of(words, "--present-mode"@);
            let first = seconds is Some && decimal::parsed(seconds->0) is None;
            let second = scene is Some && geometry::named_scene(scene->0) is None;
            let third = mode is Some && named_mode(mode->0) is None;
            &&& first ==> reading(words) == Err::<Invocation, Seq<char>>(
                "--persistence expects seconds"@ + " (got "@ + quoted(seconds->0) + ")"@,
            )
            &&& !first && second ==> reading(words) == Err::<Invocation, Seq<char>>(
                "--scene expects one of: cube, lissajous"@ + " (got "@ + quoted(scene->0) + ")"@,
            )
            &&& !first && !second && third ==> reading(words) == Err::<Invocation, Seq<char>>(
                "--present-mode expects one of: immediate, mailbox, fifo"@ + " (got "@ + quoted(
                    mode->0,
                ) + ")"@,
            )
        }),
{
}

/// Two words at most belong to a picture, and none from the next flag on.
pub proof fn law_two_words_belong_to_a_picture(words: Seq<Seq<char>>, from: int)
    requires
        0 <= from <= words.len(),
    ensures
        positionals(words, from).len() <= 2,
        forall|i: int|
            0 <= i < positionals(words, from).len() ==> from + i < words.len() && #[trigger]
            positionals(words, from)[i] == words[from + i] && !is_flag(words[from + i]),
        ({
            let n = positionals(words, from).len();
            n == 2 || from + n == words.len() || is_flag(words[from + n])
        }),
{
}

/// Names, flags and sizes are read as they are written.
pub proof fn law_words_are_read(
    args: &[String],
    name: &str,
    scene: Option<Scene>,
    mode: Option<PresentModeArg>,
    value: Option<&str>,
    present: bool,
    size: Option<(u32, u32)>,
)
    requires
        call_ensures(Scene::parse, (name,), scene),
        call_ensures(PresentModeArg::parse, (name,), mode),
        call_ensures(flag_value, (args, name), value),
        call_ensures(flag_present, (args, name), present),
        call_ensures(parse_size, (name,), size),
    ensures
        scene == geometry::named_scene(name@),
        mode == named_mode(name@),
        value is Some <==> value_of(words(args@), name@) is Some,
        value matches Some(v) ==> value_of(words(args@), name@) == Some(v@),
        present <==> words(args@).contains(name@),
        size == size_of_picture(name@),
{
}

/// A present mode that is asked for stands for the mode of its name.
pub proof fn law_modes_stand_for_themselves(arg: PresentModeArg, r: wgpu::PresentMode)
    requires
        call_ensures(PresentModeArg::to_wgpu, (arg,), r),
    ensures
        r == wgpu::PresentMode::Immediate <==> arg == PresentModeArg::Immediate,
        r == wgpu::PresentMode::Mailbox <==> arg == PresentModeArg::Mailbox,
        r == wgpu::PresentMode::Fifo <==> arg == PresentModeArg::Fifo,
{
}

}
