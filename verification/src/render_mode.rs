//! Choosing between Braille text and sixel graphics.

use vstd::prelude::*;

verus! {

/// The render mode a user asks for.
#[derive(Clone, Copy, Debug, PartialEq, Eq, Structural)]
pub enum RenderMode {
    Auto,
    Braille,
    Sixel,
}

/// The render mode in effect once `Auto` has been decided.
#[derive(Clone, Copy, Debug, PartialEq, Eq, Structural)]
pub enum ActiveRenderMode {
    Braille,
    Sixel,
}

/// Output format of a headless snapshot.
#[derive(Clone, Copy, Debug, PartialEq, Eq, Structural)]
pub enum SnapshotFormat {
    Ansi,
    Sixel,
}

impl Default for RenderMode {
    fn default() -> (m: Self)
        ensures
            m == RenderMode::Auto,
    {
        RenderMode::Auto
    }
}

impl Default for ActiveRenderMode {
    fn default() -> (m: Self)
        ensures
            m == ActiveRenderMode::Braille,
    {
        ActiveRenderMode::Braille
    }
}

impl Default for SnapshotFormat {
    fn default() -> (f: Self)
        ensures
            f == SnapshotFormat::Ansi,
    {
        SnapshotFormat::Ansi
    }
}

/// Whether the map widget draws the frame as Braille text: only in the
/// Braille mode (in the sixel mode the image is painted over it).
pub fn braille_enabled(mode: ActiveRenderMode) -> (enabled: bool)
    ensures
        enabled == (mode == ActiveRenderMode::Braille),
{
    match mode {
        ActiveRenderMode::Braille => true,
        ActiveRenderMode::Sixel => false,
    }
}

/// Whether a drawn screen is followed by a sixel image of the map: in
/// the sixel mode, when there is a frame to paint.
pub fn paints_sixel(mode: ActiveRenderMode, has_frame: bool) -> (paints: bool)
    ensures
        paints == (mode == ActiveRenderMode::Sixel && has_frame),
{
    match mode {
        ActiveRenderMode::Braille => false,
        ActiveRenderMode::Sixel => has_frame,
    }
}

/// The mode in effect for `mode`, where `sixel_detected` is what the
/// terminal probe reports.
pub open spec fn active_mode(mode: RenderMode, sixel_detected: bool) -> ActiveRenderMode {
    match mode {
        RenderMode::Auto => if sixel_detected {
            ActiveRenderMode::Sixel
        } else {
            ActiveRenderMode::Braille
        },
        RenderMode::Braille => ActiveRenderMode::Braille,
        RenderMode::Sixel => ActiveRenderMode::Sixel,
    }
}

/// Resolves `mode` to the mode in effect. `probe` asks the terminal
/// whether it shows sixel graphics; it runs only for `Auto`.
pub fn resolve_render_mode<F: FnOnce() -> bool>(mode: RenderMode, probe: F) -> (active:
    ActiveRenderMode)
    requires
        mode == RenderMode::Auto ==> call_requires(probe, ()),
    ensures
        mode != RenderMode::Auto ==> active == active_mode(mode, false),
        mode == RenderMode::Auto ==> exists|detected: bool|
            call_ensures(probe, (), detected) && active == active_mode(mode, detected),
{
    match mode {
        RenderMode::Auto => {
            let detected = probe();
            let active = if detected {
                ActiveRenderMode::Sixel
            } else {
                ActiveRenderMode::Braille
            };
            assert(call_ensures(probe, (), detected) && active == active_mode(mode, detected));
            active
        },
        RenderMode::Braille => ActiveRenderMode::Braille,
        RenderMode::Sixel => ActiveRenderMode::Sixel,
    }
}

/// ASCII lower-casing of one character; other characters are kept.
pub open spec fn ascii_lower(c: char) -> char {
    if 'A' <= c && c <= 'Z' {
        ((c as u8) + 32) as char
    } else {
        c
    }
}

/// ASCII lower-casing of a string.
pub open spec fn lower(s: Seq<char>) -> Seq<char> {
    s.map_values(|c: char| ascii_lower(c))
}

/// `needle` occurs in `hay` at position `i`.
pub open spec fn occurs_at(hay: Seq<char>, needle: Seq<char>, i: int) -> bool {
    0 <= i && i + needle.len() <= hay.len() && hay.subrange(i, i + needle.len()) == needle
}

/// `needle` occurs somewhere in `hay`.
pub open spec fn contains_seq(hay: Seq<char>, needle: Seq<char>) -> bool {
    exists|i: int| occurs_at(hay, needle, i)
}

fn lowercase_chars(s: &str) -> (out: Vec<char>)
    ensures
        out@ == lower(s@),
{
    let mut out: Vec<char> = Vec::new();
    for c in it: s.chars()
        invariant
            it.seq() == s@,
            out@ == lower(it.seq().take(it.index() as int)),
    {
        let l = if 'A' <= c && c <= 'Z' {
            ((c as u8) + 32) as char
        } else {
            c
        };
        out.push(l);
        proof {
            assert(lower(it.seq().take(it.index() + 1)) == lower(it.seq().take(it.index() as int)).push(l));
        }
    }
    out
}


/// `hay` starts with `prefix`.
pub open spec fn starts_with_seq(hay: Seq<char>, prefix: Seq<char>) -> bool {
    occurs_at(hay, prefix, 0)
}

/// The text of an optional environment value; an absent one reads as empty.
pub open spec fn env_text(v: Option<&str>) -> Seq<char> {
    match v {
        Some(s) => s@,
        None => Seq::empty(),
    }
}

pub open spec fn lit_sixel() -> Seq<char> {
    seq!['s', 'i', 'x', 'e', 'l']
}

pub open spec fn lit_mlterm() -> Seq<char> {
    seq!['m', 'l', 't', 'e', 'r', 'm']
}

pub open spec fn lit_mintty() -> Seq<char> {
    seq!['m', 'i', 'n', 't', 't', 'y']
}

pub open spec fn lit_contour() -> Seq<char> {
    seq!['c', 'o', 'n', 't', 'o', 'u', 'r']
}

pub open spec fn lit_foot() -> Seq<char> {
    seq!['f', 'o', 'o', 't']
}

pub open spec fn lit_yaft() -> Seq<char> {
    seq!['y', 'a', 'f', 't']
}

pub open spec fn lit_wezterm() -> Seq<char> {
    seq!['w', 'e', 'z', 't', 'e', 'r', 'm']
}

pub open spec fn lit_iterm_app() -> Seq<char> {
    seq!['i', 't', 'e', 'r', 'm', '.', 'a', 'p', 'p']
}

/// Whether a terminal whose `TERM` is `term` and whose `TERM_PROGRAM` is
/// `program` is known to display sixel graphics (compared without regard
/// to ASCII case).
pub open spec fn term_supports_sixel(term: Seq<char>, program: Seq<char>) -> bool {
    let t = lower(term);
    let p = lower(program);
    ||| contains_seq(t, lit_sixel())
    ||| t == lit_mlterm()
    ||| t == lit_mintty()
    ||| t == lit_contour()
    ||| t == lit_foot()
    ||| t == lit_yaft()
    ||| starts_with_seq(t, lit_wezterm())
    ||| p == lit_wezterm()
    ||| p == lit_iterm_app()
    ||| p == lit_mintty()
    ||| p == lit_mlterm()
    ||| p == lit_contour()
    ||| p == lit_foot()
}

fn matches_at(hay: &[char], needle: &[char], at: usize) -> (r: bool)
    requires
        at + needle@.len() <= hay@.len(),
    ensures
        r == occurs_at(hay@, needle@, at as int),
{
    let n = needle.len();
    let h = hay.len();
    let mut k: usize = 0;
    while k < n
        invariant
            n == needle@.len(),
            h == hay@.len(),
            at + needle@.len() <= hay@.len(),
            k <= needle@.len(),
            forall|j: int| 0 <= j < k ==> hay@[at + j] == needle@[j],
        decreases needle@.len() - k,
    {
        if hay[at + k] != needle[k] {
            assert(hay@.subrange(at as int, at + needle@.len())[k as int] != needle@[k as int]);
            return false;
        }
        k += 1;
    }
    assert(hay@.subrange(at as int, at + needle@.len()) =~= needle@);
    true
}

fn contains_chars(hay: &[char], needle: &[char]) -> (r: bool)
    ensures
        r == contains_seq(hay@, needle@),
{
    if needle.len() > hay.len() {
        return false;
    }
    let last = hay.len() - needle.len();
    let mut i: usize = 0;
    loop
        invariant
            last + needle@.len() == hay@.len(),
            i <= last,
            forall|j: int| 0 <= j < i ==> !occurs_at(hay@, needle@, j),
        decreases last - i,
    {
        if matches_at(hay, needle, i) {
            return true;
        }
        if i == last {
            return false;
        }
        i += 1;
    }
}

fn equals_chars(a: &[char], b: &[char]) -> (r: bool)
    ensures
        r == (a@ == b@),
{
    if a.len() != b.len() {
        return false;
    }
    let r = matches_at(a, b, 0);
    assert(a@ =~= a@.subrange(0, b@.len() as int));
    r
}

fn starts_with_chars(a: &[char], prefix: &[char]) -> (r: bool)
    ensures
        r == starts_with_seq(a@, prefix@),
{
    if prefix.len() > a.len() {
        return false;
    }
    matches_at(a, prefix, 0)
}

fn env_chars(v: Option<&str>) -> (out: Vec<char>)
    ensures
        out@ == lower(env_text(v)),
{
    match v {
        Some(s) => lowercase_chars(s),
        None => {
            let out: Vec<char> = Vec::new();
            assert(out@ =~= lower(Seq::<char>::empty()));
            out
        },
    }
}

/// Whether the terminal described by the `TERM`, `TERM_PROGRAM` and
/// `XTERM_VERSION` values is known to display sixel graphics.
/// `XTERM_VERSION` is accepted and not consulted.
pub fn terminal_supports_sixel_env(
    term: Option<&str>,
    term_program: Option<&str>,
    _xterm_version: Option<&str>,
) -> (supported: bool)
    ensures
        supported == term_supports_sixel(env_text(term), env_text(term_program)),
{
    let t = env_chars(term);
    let p = env_chars(term_program);
    let sixel: [char; 5] = ['s', 'i', 'x', 'e', 'l'];
    let mlterm: [char; 6] = ['m', 'l', 't', 'e', 'r', 'm'];
    let mintty: [char; 6] = ['m', 'i', 'n', 't', 't', 'y'];
    let contour: [char; 7] = ['c', 'o', 'n', 't', 'o', 'u', 'r'];
    let foot: [char; 4] = ['f', 'o', 'o', 't'];
    let yaft: [char; 4] = ['y', 'a', 'f', 't'];
    let wezterm: [char; 7] = ['w', 'e', 'z', 't', 'e', 'r', 'm'];
    let iterm_app: [char; 9] = ['i', 't', 'e', 'r', 'm', '.', 'a', 'p', 'p'];
    assert(sixel@ == lit_sixel());
    assert(mlterm@ == lit_mlterm());
    assert(mintty@ == lit_mintty());
    assert(contour@ == lit_contour());
    assert(foot@ == lit_foot());
    assert(yaft@ == lit_yaft());
    assert(wezterm@ == lit_wezterm());
    assert(iterm_app@ == lit_iterm_app());
    let t = t.as_slice();
    let p = p.as_slice();
    contains_chars(t, &sixel) || equals_chars(t, &mlterm) || equals_chars(t, &mintty)
        || equals_chars(t, &contour) || equals_chars(t, &foot) || equals_chars(t, &yaft)
        || starts_with_chars(t, &wezterm) || equals_chars(p, &wezterm) || equals_chars(
        p,
        &iterm_app,
    ) || equals_chars(p, &mintty) || equals_chars(p, &mlterm) || equals_chars(p, &contour)
        || equals_chars(p, &foot)
}


/// The terminals known to show sixel graphics are recognised by name,
/// whatever the ASCII case: a `TERM` of `mlterm`, `mintty`, `contour`,
/// `foot` or `yaft`, one that contains `sixel` or starts with `wezterm`,
/// whatever `TERM_PROGRAM` says; and a `TERM_PROGRAM` of `WezTerm`,
/// `iTerm.app`, `mintty`, `mlterm`, `contour` or `foot`, whatever `TERM`
/// says.
pub proof fn lemma_known_sixel_terminals(term: Seq<char>, program: Seq<char>)
    ensures
        lower(term) == seq!['m', 'l', 't', 'e', 'r', 'm'] ==> term_supports_sixel(term, program),
        lower(term) == seq!['m', 'i', 'n', 't', 't', 'y'] ==> term_supports_sixel(term, program),
        lower(term) == seq!['c', 'o', 'n', 't', 'o', 'u', 'r'] ==> term_supports_sixel(
            term,
            program,
        ),
        lower(term) == seq!['f', 'o', 'o', 't'] ==> term_supports_sixel(term, program),
        lower(term) == seq!['y', 'a', 'f', 't'] ==> term_supports_sixel(term, program),
        (exists|i: int|
            #![trigger lower(term).subrange(i, i + 5)]
            0 <= i && i + 5 <= term.len() && lower(term).subrange(i, i + 5) == seq![
                's',
                'i',
                'x',
                'e',
                'l',
            ]) ==> term_supports_sixel(term, program),
        7 <= term.len() && lower(term).subrange(0, 7) == seq!['w', 'e', 'z', 't', 'e', 'r', 'm']
            ==> term_supports_sixel(term, program),
        lower(program) == seq!['w', 'e', 'z', 't', 'e', 'r', 'm'] ==> term_supports_sixel(
            term,
            program,
        ),
        lower(program) == seq!['i', 't', 'e', 'r', 'm', '.', 'a', 'p', 'p'] ==> term_supports_sixel(
            term,
            program,
        ),
        lower(program) == seq!['m', 'i', 'n', 't', 't', 'y'] ==> term_supports_sixel(term, program),
        lower(program) == seq!['m', 'l', 't', 'e', 'r', 'm'] ==> term_supports_sixel(term, program),
        lower(program) == seq!['c', 'o', 'n', 't', 'o', 'u', 'r'] ==> term_supports_sixel(
            term,
            program,
        ),
        lower(program) == seq!['f', 'o', 'o', 't'] ==> term_supports_sixel(term, program),
{
    if exists|i: int|
        #![trigger lower(term).subrange(i, i + 5)]
        0 <= i && i + 5 <= term.len() && lower(term).subrange(i, i + 5) == seq![
            's',
            'i',
            'x',
            'e',
            'l',
        ] {
        let i = choose|i: int|
            #![trigger lower(term).subrange(i, i + 5)]
            0 <= i && i + 5 <= term.len() && lower(term).subrange(i, i + 5) == seq![
                's',
                'i',
                'x',
                'e',
                'l',
            ];
        assert(occurs_at(lower(term), lit_sixel(), i));
    }
}

proof fn lemma_lower_idempotent(s: Seq<char>)
    ensures
        lower(lower(s)) == lower(s),
{
    assert forall|i: int| 0 <= i < s.len() implies ascii_lower(ascii_lower(s[i])) == ascii_lower(
        s[i],
    ) by {
        let c = s[i];
        if 'A' <= c && c <= 'Z' {
            let l = ((c as u8) + 32) as char;
            assert(l as u32 == (c as u32) + 32);
        }
    }
    assert(lower(lower(s)) =~= lower(s));
}

/// Sixel detection does not depend on ASCII case: lower-casing `TERM`
/// and `TERM_PROGRAM` never changes the answer.
pub proof fn lemma_detection_ignores_case(term: Seq<char>, program: Seq<char>)
    ensures
        term_supports_sixel(lower(term), lower(program)) == term_supports_sixel(term, program),
{
    lemma_lower_idempotent(term);
    lemma_lower_idempotent(program);
}

/// An explicitly chosen mode is kept whatever the terminal reports;
/// only `Auto` follows the terminal.
pub proof fn lemma_explicit_mode_kept(detected: bool)
    ensures
        active_mode(RenderMode::Braille, detected) == ActiveRenderMode::Braille,
        active_mode(RenderMode::Sixel, detected) == ActiveRenderMode::Sixel,
        (active_mode(RenderMode::Auto, detected) == ActiveRenderMode::Sixel) == detected,
{
}

} // verus!
