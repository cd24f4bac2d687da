//! Which passes run, and where assets are looked for.

use vstd::prelude::*;
use vstd::string::*;

verus! {

/// Which terminal-render strategy to run.
#[derive(Clone, Copy, Debug, PartialEq, Eq, Structural)]
pub enum KittyMode {
    /// Per-sprite placement deltas over uploaded bitmaps. Thin enough for SSH.
    Sprite,
    /// Full framebuffer plate every changed frame: the reference oracle.
    Frame,
}

impl Default for KittyMode {
    fn default() -> (mode: KittyMode)
        ensures
            mode == KittyMode::Sprite,
    {
        KittyMode::Sprite
    }
}

impl KittyMode {
    /// Whether the render target is scaled up to rasterise text larger. Frame mode reads
    /// the target back expecting exactly the virtual size, so it never scales.
    pub fn scales_target(self) -> (b: bool)
        ensures
            b == (self == KittyMode::Sprite),
    {
        match self {
            KittyMode::Sprite => true,
            KittyMode::Frame => false,
        }
    }
}

/// What the app asked for.
#[derive(Clone, Copy, Debug, PartialEq, Eq, Structural)]
pub struct Wishes {
    pub mode: KittyMode,
    pub text: bool,
    pub ui: bool,
    pub input: bool,
}

/// What is compiled in.
#[derive(Clone, Copy, Debug, PartialEq, Eq, Structural)]
pub struct Parts {
    pub sprite: bool,
    pub frame: bool,
    pub text: bool,
    pub ui: bool,
    pub input: bool,
}

/// What is set up, and what has to be complained about.
#[derive(Clone, Copy, Debug, PartialEq, Eq, Structural)]
pub struct BootPlan {
    /// Register the input message types. Done even when input is off: a reader of an
    /// unregistered message type panics.
    pub messages: bool,
    /// Read the terminal.
    pub input: bool,
    pub frame: bool,
    pub sprite: bool,
    pub text: bool,
    pub ui: bool,
    /// The mode asked for is not compiled in, so nothing will be drawn.
    pub mode_missing: bool,
    /// Text is asked for and not compiled in.
    pub text_missing: bool,
    /// The interface is asked for and not compiled in.
    pub ui_missing: bool,
    /// Input is asked for and not compiled in.
    pub input_missing: bool,
}

/// What is set up for what was asked for: the pass of the mode, the text and interface
/// passes beside the sprite pass only, and input in either mode.
pub open spec fn boot(w: Wishes, p: Parts) -> BootPlan {
    let sprite = w.mode == KittyMode::Sprite && p.sprite;
    let frame = w.mode == KittyMode::Frame && p.frame;
    BootPlan {
        messages: p.input,
        input: w.input && p.input,
        frame,
        sprite,
        text: sprite && w.text && p.text,
        ui: sprite && w.ui && p.ui,
        mode_missing: !sprite && !frame,
        text_missing: w.text && !p.text,
        ui_missing: w.ui && !p.ui,
        input_missing: w.input && !p.input,
    }
}

/// Plans what to set up.
pub fn plan_boot(w: Wishes, p: Parts) -> (plan: BootPlan)
    ensures
        plan == boot(w, p),
{
    let sprite = match w.mode {
        KittyMode::Sprite => p.sprite,
        KittyMode::Frame => false,
    };
    let frame = match w.mode {
        KittyMode::Sprite => false,
        KittyMode::Frame => p.frame,
    };
    BootPlan {
        messages: p.input,
        input: w.input && p.input,
        frame,
        sprite,
        text: sprite && w.text && p.text,
        ui: sprite && w.ui && p.ui,
        mode_missing: !sprite && !frame,
        text_missing: w.text && !p.text,
        ui_missing: w.ui && !p.ui,
        input_missing: w.input && !p.input,
    }
}

/// The directory that holds `assets/`: the one named for the purpose, else the one of the
/// package that is run, else the working directory. The second part of the result says
/// whether the working directory is what was left, which is a trap for a shipped binary.
pub fn asset_root(named: Option<String>, package: Option<String>) -> (root: (String, bool))
    ensures
        match (named, package) {
            (Some(dir), _) => root.0@ == dir@ && !root.1,
            (None, Some(dir)) => root.0@ == dir@ && !root.1,
            (None, None) => root.0@ == "."@ && root.1,
        },
{
    match named {
        Some(dir) => (dir, false),
        None => match package {
            Some(dir) => (dir, false),
            None => (String::from_str("."), true),
        },
    }
}

/// Exactly one of the two renderers runs, or a complaint says that neither does. Text and
/// interface never run without the sprite pass. Messages are registered whenever input
/// could be asked for, whether or not it is.
pub proof fn something_draws_or_someone_complains(w: Wishes, p: Parts)
    ensures
        ({
            let b = boot(w, p);
            &&& !(b.sprite && b.frame)
            &&& b.sprite || b.frame || b.mode_missing
            &&& b.mode_missing ==> !b.sprite && !b.frame && !b.text && !b.ui
            &&& b.text || b.ui ==> b.sprite
            &&& b.input ==> b.messages
            &&& boot(Wishes { input: false, ..w }, p).messages == b.messages
        }),
{
}

/// Every part of the app heeds its own wish, and no other part's: changing one wish changes
/// what is set up and complained about for that part alone.
pub proof fn each_part_heeds_its_own_wish(w: Wishes, p: Parts, on: bool)
    ensures
        ({
            let b = boot(w, p);
            let t = boot(Wishes { text: on, ..w }, p);
            &&& t == (BootPlan { text: t.text, text_missing: t.text_missing, ..b })
            &&& !on ==> !t.text && !t.text_missing
            &&& on && p.text ==> t.text == b.sprite && !t.text_missing
            &&& on && !p.text ==> !t.text && t.text_missing
        }),
        ({
            let b = boot(w, p);
            let u = boot(Wishes { ui: on, ..w }, p);
            &&& u == (BootPlan { ui: u.ui, ui_missing: u.ui_missing, ..b })
            &&& !on ==> !u.ui && !u.ui_missing
            &&& on && p.ui ==> u.ui == b.sprite && !u.ui_missing
            &&& on && !p.ui ==> !u.ui && u.ui_missing
        }),
        ({
            let b = boot(w, p);
            let i = boot(Wishes { input: on, ..w }, p);
            &&& i == (BootPlan { input: i.input, input_missing: i.input_missing, ..b })
            &&& !on ==> !i.input && !i.input_missing
            &&& on && p.input ==> i.input && !i.input_missing
            &&& on && !p.input ==> !i.input && i.input_missing
        }),
{
}

/// The mode that was asked for is the one that runs, if it is compiled in; input and its
/// messages do not depend on the mode.
pub proof fn the_mode_asked_for_runs(w: Wishes, p: Parts)
    ensures
        ({
            let s = boot(Wishes { mode: KittyMode::Sprite, ..w }, p);
            let f = boot(Wishes { mode: KittyMode::Frame, ..w }, p);
            &&& !s.frame && !f.sprite && !f.text && !f.ui
            &&& p.sprite ==> s.sprite && !s.mode_missing
            &&& !p.sprite ==> !s.sprite && s.mode_missing
            &&& p.frame ==> f.frame && !f.mode_missing
            &&& !p.frame ==> !f.frame && f.mode_missing
            &&& s.input == f.input && s.messages == f.messages
            &&& p.input ==> s.messages
            &&& !p.input ==> !s.messages
        }),
{
}

} // verus!
