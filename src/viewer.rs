//! The playback loop of the viewer, without the window: what each key does, when to
//! advance, and when a new frame has to be brought on show.
use vstd::prelude::*;

use crate::objects::{id_views, reconciles, Change, ObjectID, ObjectTracker};
use crate::palette::{palette_after, Palette, PaletteView};
use crate::timer::{faster_index, slower_index, Timer, TimerView};

verus! {

/// A command of the viewer, as given by a key.
#[derive(Debug, PartialEq, Eq, Structural, Clone, Copy)]
pub enum Command {
    /// Close the window.
    Quit,
    /// One rate slower.
    Slower,
    /// One rate faster.
    Faster,
    /// Forwards to backwards and back.
    Reverse,
    /// Stop or resume advancing time.
    Pause,
    /// Flip one level of the color mask.
    TogglePartial(usize),
    /// Set every level of the color mask.
    AllPartials(bool),
    /// Look at the scene from above and aside.
    ViewTilted,
    /// Look at the scene from the side.
    ViewLevel,
    /// Save a picture of the window.
    SaveImage,
    /// Print where the camera is.
    PrintCamera,
}

impl Command {
    /// Whether the command acts on playback or colors (else, on the window).
    pub open spec fn is_playback(self) -> bool {
        match self {
            Command::Slower | Command::Faster | Command::Reverse | Command::Pause
            | Command::TogglePartial(_) | Command::AllPartials(_) => true,
            _ => false,
        }
    }
}

/// What a [`Playback`] holds, as mathematical values.
pub ghost struct PlaybackView {
    /// The clock.
    pub timer: TimerView,
    /// The colors.
    pub palette: PaletteView,
    /// The identities on show.
    pub live: Set<Seq<Seq<char>>>,
    /// Whether time stands still.
    pub paused: bool,
    /// The index of the frame on show, once one is.
    pub shown: Option<nat>,
}

/// The playback state of the viewer: clock, colors, what is on show, and whether
/// time stands still.
#[derive(Debug)]
pub struct Playback {
    timer: Timer,
    palette: Palette,
    tracker: ObjectTracker,
    paused: bool,
    shown: Option<usize>,
}

impl View for Playback {
    type V = PlaybackView;

    closed spec fn view(&self) -> PlaybackView {
        PlaybackView {
            timer: self.timer@,
            palette: self.palette@,
            live: self.tracker@,
            paused: self.paused,
            shown: match self.shown {
                Some(i) => Some(i as nat),
                None => None,
            },
        }
    }
}

impl Playback {
    /// Clock, colors and tracker are usable.
    pub closed spec fn wf(&self) -> bool {
        self.timer.wf() && self.palette.wf() && self.tracker.wf()
    }

    /// Playback with the given clock and colors, nothing on show, running.
    pub fn new(timer: Timer, palette: Palette) -> (r: Playback)
        requires
            timer.wf(),
            palette.wf(),
        ensures
            r.wf(),
            r@ == (PlaybackView {
                timer: timer@,
                palette: palette@,
                live: Set::empty(),
                paused: false,
                shown: None,
            }),
    {
        Playback { timer, palette, tracker: ObjectTracker::new(), paused: false, shown: None }
    }

    /// The clock.
    pub fn timer(&self) -> (r: &Timer)
        requires
            self.wf(),
        ensures
            r.wf(),
            r@ == self@.timer,
    {
        &self.timer
    }

    /// The colors.
    pub fn palette(&self) -> (r: &Palette)
        requires
            self.wf(),
        ensures
            r.wf(),
            r@ == self@.palette,
    {
        &self.palette
    }

    /// Whether time stands still.
    pub fn is_paused(&self) -> (r: bool)
        ensures
            r == self@.paused,
    {
        self.paused
    }

    /// The index of the frame on show, once one is.
    pub fn shown(&self) -> (r: Option<usize>)
        ensures
            match r {
                Some(i) => self@.shown == Some(i as nat),
                None => self@.shown is None,
            },
    {
        self.shown
    }

    /// Carries out a command on playback or colors, and says whether it was one;
    /// commands on the window change nothing here.
    pub fn handle(&mut self, cmd: Command) -> (r: bool)
        requires
            old(self).wf(),
        ensures
            final(self).wf(),
            r == cmd.is_playback(),
            final(self)@ == (match cmd {
                Command::Slower => PlaybackView {
                    timer: TimerView { rate_index: slower_index(old(self)@.timer.rate_index), ..old(self)@.timer },
                    ..old(self)@
                },
                Command::Faster => PlaybackView {
                    timer: TimerView {
                        rate_index: faster_index(old(self)@.timer.rate_index, old(self)@.timer.rates.len() as int),
                        ..old(self)@.timer
                    },
                    ..old(self)@
                },
                Command::Reverse => PlaybackView {
                    timer: TimerView { rate_index: -old(self)@.timer.rate_index, ..old(self)@.timer },
                    ..old(self)@
                },
                Command::Pause => PlaybackView { paused: !old(self)@.paused, ..old(self)@ },
                Command::TogglePartial(n) => PlaybackView {
                    palette: if n < old(self)@.palette.partials.len() {
                        old(self)@.palette.with_mask(
                            old(self)@.palette.partials.update(n as int, !old(self)@.palette.partials[n as int]),
                        )
                    } else {
                        old(self)@.palette
                    },
                    ..old(self)@
                },
                Command::AllPartials(b) => PlaybackView {
                    palette: old(self)@.palette.with_mask(Seq::new(old(self)@.palette.partials.len(), |i: int| b)),
                    ..old(self)@
                },
                _ => old(self)@,
            }),
    {
        match cmd {
            Command::Slower => {
                self.timer.slower();
                true
            },
            Command::Faster => {
                self.timer.faster();
                true
            },
            Command::Reverse => {
                self.timer.switch_direction();
                true
            },
            Command::Pause => {
                self.paused = !self.paused;
                true
            },
            Command::TogglePartial(n) => {
                self.palette.toggle_partial(n);
                true
            },
            Command::AllPartials(b) => {
                self.palette.set_all_partial(b);
                true
            },
            _ => false,
        }
    }

    /// One turn of the render loop: unless paused, time moves on by one call of
    /// [`Timer::incr`]. Returns the index of the frame to bring on show, where it is
    /// not the one on show.
    pub fn tick(&mut self) -> (r: Option<usize>)
        requires
            old(self).wf(),
        ensures
            final(self).wf(),
            final(self)@.timer == (if old(self)@.paused { old(self)@.timer } else { old(self)@.timer.after_incr() }),
            final(self)@.palette == old(self)@.palette,
            final(self)@.live == old(self)@.live,
            final(self)@.paused == old(self)@.paused,
            final(self)@.shown == old(self)@.shown,
            r == (if old(self)@.shown == Some(final(self)@.timer.index() as nat) {
                None::<usize>
            } else {
                Some(final(self)@.timer.index() as usize)
            }),
    {
        if !self.paused {
            self.timer.incr();
        }
        let ix = self.timer.get_index();
        match self.shown {
            Some(s) => {
                if s == ix {
                    None
                } else {
                    Some(ix)
                }
            },
            None => Some(ix),
        }
    }

    /// Brings frame `index`, whose objects have the identities `ids`, on show: see
    /// [`ObjectTracker::update`].
    pub fn show(&mut self, index: usize, ids: &Vec<ObjectID>) -> (changes: Vec<Change>)
        requires
            old(self).wf(),
        ensures
            final(self).wf(),
            final(self)@.shown == Some(index as nat),
            final(self)@.live == id_views(ids@).to_set(),
            final(self)@.palette == palette_after(old(self)@.palette, id_views(ids@), ids@.len() as int),
            final(self)@.timer == old(self)@.timer,
            final(self)@.paused == old(self)@.paused,
            reconciles(old(self)@.live, id_views(ids@), old(self)@.palette, changes@),
    {
        let changes = self.tracker.update(ids, &mut self.palette);
        self.shown = Some(index);
        changes
    }
}

} // verus!
