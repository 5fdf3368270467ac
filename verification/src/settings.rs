//! Tuning of the BC6H and BC7 encoders.
use vstd::prelude::*;

verus! {

/// Encoding settings for BC6H.
#[derive(Copy, Clone, Debug, PartialEq, Eq, Structural)]
pub struct BC6HSettings {
    /// Try every mode on every block.
    pub slow_mode: bool,
    /// Leave out the modes that seldom win.
    pub fast_mode: bool,
    /// Rounds of refinement of a block with one subset.
    pub refine_iterations_1p: u32,
    /// Rounds of refinement of a block with two subsets.
    pub refine_iterations_2p: u32,
    /// The number of shapes that are tried in full.
    pub fast_skip_threshold: u32,
}

impl BC6HSettings {
    /// The five words that the encoder on the graphics processor reads: the
    /// fields in order, a flag as 0 or 1.
    pub open spec fn words(self) -> Seq<u32> {
        seq![
            if self.slow_mode {
                1u32
            } else {
                0u32
            },
            if self.fast_mode {
                1u32
            } else {
                0u32
            },
            self.refine_iterations_1p,
            self.refine_iterations_2p,
            self.fast_skip_threshold,
        ]
    }

    /// The five words that the encoder on the graphics processor reads.
    pub fn to_words(&self) -> (words: Vec<u32>)
        ensures
            words@ == self.words(),
    {
        let mut words: Vec<u32> = Vec::new();
        words.push(if self.slow_mode {
            1
        } else {
            0
        });
        words.push(if self.fast_mode {
            1
        } else {
            0
        });
        words.push(self.refine_iterations_1p);
        words.push(self.refine_iterations_2p);
        words.push(self.fast_skip_threshold);
        assert(words@ =~= self.words());
        words
    }

    /// Very fast settings.
    pub fn very_fast() -> (s: Self)
        ensures
            s == (BC6HSettings {
                slow_mode: false,
                fast_mode: true,
                refine_iterations_1p: 0,
                refine_iterations_2p: 0,
                fast_skip_threshold: 0,
            }),
    {
        Self {
            slow_mode: false,
            fast_mode: true,
            fast_skip_threshold: 0,
            refine_iterations_1p: 0,
            refine_iterations_2p: 0,
        }
    }

    /// Fast settings.
    pub fn fast() -> (s: Self)
        ensures
            s == (BC6HSettings {
                slow_mode: false,
                fast_mode: true,
                refine_iterations_1p: 0,
                refine_iterations_2p: 1,
                fast_skip_threshold: 2,
            }),
    {
        Self {
            slow_mode: false,
            fast_mode: true,
            fast_skip_threshold: 2,
            refine_iterations_1p: 0,
            refine_iterations_2p: 1,
        }
    }

    /// Basic settings.
    pub fn basic() -> (s: Self)
        ensures
            s == (BC6HSettings {
                slow_mode: false,
                fast_mode: false,
                refine_iterations_1p: 2,
                refine_iterations_2p: 2,
                fast_skip_threshold: 4,
            }),
    {
        Self {
            slow_mode: false,
            fast_mode: false,
            fast_skip_threshold: 4,
            refine_iterations_1p: 2,
            refine_iterations_2p: 2,
        }
    }

    /// Slow settings.
    pub fn slow() -> (s: Self)
        ensures
            s == (BC6HSettings {
                slow_mode: true,
                fast_mode: false,
                refine_iterations_1p: 2,
                refine_iterations_2p: 2,
                fast_skip_threshold: 10,
            }),
    {
        Self {
            slow_mode: true,
            fast_mode: false,
            fast_skip_threshold: 10,
            refine_iterations_1p: 2,
            refine_iterations_2p: 2,
        }
    }

    /// Very slow settings.
    pub fn very_slow() -> (s: Self)
        ensures
            s == (BC6HSettings {
                slow_mode: true,
                fast_mode: false,
                refine_iterations_1p: 2,
                refine_iterations_2p: 2,
                fast_skip_threshold: 32,
            }),
    {
        Self {
            slow_mode: true,
            fast_mode: false,
            fast_skip_threshold: 32,
            refine_iterations_1p: 2,
            refine_iterations_2p: 2,
        }
    }
}

/// The settings of a task: those of BC6H or those of BC7.
#[derive(Copy, Clone, Debug)]
pub enum Settings {
    BC6H(BC6HSettings),
    BC7(BC7Settings),
}

/// Encoding settings for BC7.
#[derive(Copy, Clone, Debug, PartialEq, Eq)]
pub struct BC7Settings {
    /// Rounds of refinement, mode by mode.
    pub refine_iterations: [u32; 8],
    /// Which groups of modes are tried: modes 0 and 2; modes 1, 3 and 7;
    /// modes 4 and 5; mode 6.
    pub mode_selection: [bool; 4],
    /// Leave out mode 2.
    pub skip_mode2: bool,
    /// The number of shapes that are tried in full in mode 1.
    pub fast_skip_threshold_mode1: u32,
    /// The number of shapes that are tried in full in mode 3.
    pub fast_skip_threshold_mode3: u32,
    /// The number of shapes that are tried in full in mode 7.
    pub fast_skip_threshold_mode7: u32,
    /// The first rotation that modes 4 and 5 try: 0 or 3.
    pub mode45_channel0: u32,
    /// Rounds of refinement of the channel that modes 4 and 5 store apart.
    pub refine_iterations_channel: u32,
    /// The number of channels of the source: 3 or 4.
    pub channels: u32,
}

/// A flag as the word 0 or 1.
pub open spec fn flag_word(flag: bool) -> u32 {
    if flag {
        1
    } else {
        0
    }
}

impl BC7Settings {
    /// The nineteen words that the encoder on the graphics processor reads:
    /// the fields in order, a flag as 0 or 1.
    pub open spec fn words(self) -> Seq<u32> {
        self.refine_iterations@ + seq![
            flag_word(self.mode_selection@[0]),
            flag_word(self.mode_selection@[1]),
            flag_word(self.mode_selection@[2]),
            flag_word(self.mode_selection@[3]),
            flag_word(self.skip_mode2),
            self.fast_skip_threshold_mode1,
            self.fast_skip_threshold_mode3,
            self.fast_skip_threshold_mode7,
            self.mode45_channel0,
            self.refine_iterations_channel,
            self.channels,
        ]
    }

    /// The nineteen words that the encoder on the graphics processor reads.
    pub fn to_words(&self) -> (words: Vec<u32>)
        ensures
            words@ == self.words(),
    {
        let mut words: Vec<u32> = Vec::new();
        let mut i: usize = 0;
        while i < 8
            invariant
                i <= 8,
                words@ == self.refine_iterations@.take(i as int),
            decreases 8 - i,
        {
            words.push(self.refine_iterations[i]);
            assert(words@ =~= self.refine_iterations@.take((i + 1) as int));
            i = i + 1;
        }
        assert(self.refine_iterations@.take(8) =~= self.refine_iterations@);
        words.push(if self.mode_selection[0] {
            1
        } else {
            0
        });
        words.push(if self.mode_selection[1] {
            1
        } else {
            0
        });
        words.push(if self.mode_selection[2] {
            1
        } else {
            0
        });
        words.push(if self.mode_selection[3] {
            1
        } else {
            0
        });
        words.push(if self.skip_mode2 {
            1
        } else {
            0
        });
        words.push(self.fast_skip_threshold_mode1);
        words.push(self.fast_skip_threshold_mode3);
        words.push(self.fast_skip_threshold_mode7);
        words.push(self.mode45_channel0);
        words.push(self.refine_iterations_channel);
        words.push(self.channels);
        assert(words@ =~= self.words());
        words
    }

    /// The settings that a preset stands for.
    pub open spec fn preset(
        channels: u32,
        mode_selection: Seq<bool>,
        skip_mode2: bool,
        thresholds: (u32, u32, u32),
        mode45_channel0: u32,
        refine_iterations_channel: u32,
        refine_iterations: Seq<u32>,
        s: Self,
    ) -> bool {
        &&& s.channels == channels
        &&& s.mode_selection@ == mode_selection
        &&& s.skip_mode2 == skip_mode2
        &&& s.fast_skip_threshold_mode1 == thresholds.0
        &&& s.fast_skip_threshold_mode3 == thresholds.1
        &&& s.fast_skip_threshold_mode7 == thresholds.2
        &&& s.mode45_channel0 == mode45_channel0
        &&& s.refine_iterations_channel == refine_iterations_channel
        &&& s.refine_iterations@ == refine_iterations
    }

    /// Opaque ultra fast settings.
    pub fn opaque_ultra_fast() -> (s: Self)
        ensures
            Self::preset(
                3,
                seq![false, false, false, true],
                true,
                (3, 1, 0),
                0,
                0,
                seq![2, 2, 2, 1, 2, 2, 1, 0],
                s,
            ),
    {
        let s = Self {
            channels: 3,
            mode_selection: [false, false, false, true],
            skip_mode2: true,
            fast_skip_threshold_mode1: 3,
            fast_skip_threshold_mode3: 1,
            fast_skip_threshold_mode7: 0,
            mode45_channel0: 0,
            refine_iterations_channel: 0,
            refine_iterations: [2, 2, 2, 1, 2, 2, 1, 0],
        };
        assert(s.mode_selection@ =~= seq![false, false, false, true]);
        assert(s.refine_iterations@ =~= seq![2, 2, 2, 1, 2, 2, 1, 0]);
        s
    }

    /// Opaque very fast settings.
    pub fn opaque_very_fast() -> (s: Self)
        ensures
            Self::preset(
                3,
                seq![false, true, false, true],
                true,
                (3, 1, 0),
                0,
                0,
                seq![2, 2, 2, 1, 2, 2, 1, 0],
                s,
            ),
    {
        let s = Self {
            channels: 3,
            mode_selection: [false, true, false, true],
            skip_mode2: true,
            fast_skip_threshold_mode1: 3,
            fast_skip_threshold_mode3: 1,
            fast_skip_threshold_mode7: 0,
            mode45_channel0: 0,
            refine_iterations_channel: 0,
            refine_iterations: [2, 2, 2, 1, 2, 2, 1, 0],
        };
        assert(s.mode_selection@ =~= seq![false, true, false, true]);
        assert(s.refine_iterations@ =~= seq![2, 2, 2, 1, 2, 2, 1, 0]);
        s
    }

    /// Opaque fast settings.
    pub fn opaque_fast() -> (s: Self)
        ensures
            Self::preset(
                3,
                seq![false, true, false, true],
                true,
                (12, 4, 0),
                0,
                0,
                seq![2, 2, 2, 1, 2, 2, 2, 0],
                s,
            ),
    {
        let s = Self {
            channels: 3,
            mode_selection: [false, true, false, true],
            skip_mode2: true,
            fast_skip_threshold_mode1: 12,
            fast_skip_threshold_mode3: 4,
            fast_skip_threshold_mode7: 0,
            mode45_channel0: 0,
            refine_iterations_channel: 0,
            refine_iterations: [2, 2, 2, 1, 2, 2, 2, 0],
        };
        assert(s.mode_selection@ =~= seq![false, true, false, true]);
        assert(s.refine_iterations@ =~= seq![2, 2, 2, 1, 2, 2, 2, 0]);
        s
    }

    /// Opaque basic settings.
    pub fn opaque_basic() -> (s: Self)
        ensures
            Self::preset(
                3,
                seq![true, true, true, true],
                true,
                (12, 8, 0),
                0,
                2,
                seq![2, 2, 2, 2, 2, 2, 2, 0],
                s,
            ),
    {
        let s = Self {
            channels: 3,
            mode_selection: [true, true, true, true],
            skip_mode2: true,
            fast_skip_threshold_mode1: 12,
            fast_skip_threshold_mode3: 8,
            fast_skip_threshold_mode7: 0,
            mode45_channel0: 0,
            refine_iterations_channel: 2,
            refine_iterations: [2, 2, 2, 2, 2, 2, 2, 0],
        };
        assert(s.mode_selection@ =~= seq![true, true, true, true]);
        assert(s.refine_iterations@ =~= seq![2, 2, 2, 2, 2, 2, 2, 0]);
        s
    }

    /// Opaque slow settings.
    pub fn opaque_slow() -> (s: Self)
        ensures
            Self::preset(
                3,
                seq![true, true, true, true],
                false,
                (64, 64, 0),
                0,
                4,
                seq![4, 4, 4, 4, 4, 4, 4, 0],
                s,
            ),
    {
        let s = Self {
            channels: 3,
            mode_selection: [true, true, true, true],
            skip_mode2: false,
            fast_skip_threshold_mode1: 64,
            fast_skip_threshold_mode3: 64,
            fast_skip_threshold_mode7: 0,
            mode45_channel0: 0,
            refine_iterations_channel: 4,
            refine_iterations: [4, 4, 4, 4, 4, 4, 4, 0],
        };
        assert(s.mode_selection@ =~= seq![true, true, true, true]);
        assert(s.refine_iterations@ =~= seq![4, 4, 4, 4, 4, 4, 4, 0]);
        s
    }

    /// Alpha ultra fast settings.
    pub fn alpha_ultrafast() -> (s: Self)
        ensures
            Self::preset(
                4,
                seq![false, false, true, true],
                true,
                (0, 0, 4),
                3,
                1,
                seq![2, 1, 2, 1, 1, 1, 2, 2],
                s,
            ),
    {
        let s = Self {
            channels: 4,
            mode_selection: [false, false, true, true],
            skip_mode2: true,
            fast_skip_threshold_mode1: 0,
            fast_skip_threshold_mode3: 0,
            fast_skip_threshold_mode7: 4,
            mode45_channel0: 3,
            refine_iterations_channel: 1,
            refine_iterations: [2, 1, 2, 1, 1, 1, 2, 2],
        };
        assert(s.mode_selection@ =~= seq![false, false, true, true]);
        assert(s.refine_iterations@ =~= seq![2, 1, 2, 1, 1, 1, 2, 2]);
        s
    }

    /// Alpha very fast settings.
    pub fn alpha_very_fast() -> (s: Self)
        ensures
            Self::preset(
                4,
                seq![false, true, true, true],
                true,
                (0, 0, 4),
                3,
                2,
                seq![2, 1, 2, 1, 2, 2, 2, 2],
                s,
            ),
    {
        let s = Self {
            channels: 4,
            mode_selection: [false, true, true, true],
            skip_mode2: true,
            fast_skip_threshold_mode1: 0,
            fast_skip_threshold_mode3: 0,
            fast_skip_threshold_mode7: 4,
            mode45_channel0: 3,
            refine_iterations_channel: 2,
            refine_iterations: [2, 1, 2, 1, 2, 2, 2, 2],
        };
        assert(s.mode_selection@ =~= seq![false, true, true, true]);
        assert(s.refine_iterations@ =~= seq![2, 1, 2, 1, 2, 2, 2, 2]);
        s
    }

    /// Alpha fast settings.
    pub fn alpha_fast() -> (s: Self)
        ensures
            Self::preset(
                4,
                seq![false, true, true, true],
                true,
                (4, 4, 8),
                3,
                2,
                seq![2, 1, 2, 1, 2, 2, 2, 2],
                s,
            ),
    {
        let s = Self {
            channels: 4,
            mode_selection: [false, true, true, true],
            skip_mode2: true,
            fast_skip_threshold_mode1: 4,
            fast_skip_threshold_mode3: 4,
            fast_skip_threshold_mode7: 8,
            mode45_channel0: 3,
            refine_iterations_channel: 2,
            refine_iterations: [2, 1, 2, 1, 2, 2, 2, 2],
        };
        assert(s.mode_selection@ =~= seq![false, true, true, true]);
        assert(s.refine_iterations@ =~= seq![2, 1, 2, 1, 2, 2, 2, 2]);
        s
    }

    /// Alpha basic settings.
    pub fn alpha_basic() -> (s: Self)
        ensures
            Self::preset(
                4,
                seq![true, true, true, true],
                true,
                (12, 8, 8),
                0,
                2,
                seq![2, 2, 2, 2, 2, 2, 2, 2],
                s,
            ),
    {
        let s = Self {
            channels: 4,
            mode_selection: [true, true, true, true],
            skip_mode2: true,
            fast_skip_threshold_mode1: 12,
            fast_skip_threshold_mode3: 8,
            fast_skip_threshold_mode7: 8,
            mode45_channel0: 0,
            refine_iterations_channel: 2,
            refine_iterations: [2, 2, 2, 2, 2, 2, 2, 2],
        };
        assert(s.mode_selection@ =~= seq![true, true, true, true]);
        assert(s.refine_iterations@ =~= seq![2, 2, 2, 2, 2, 2, 2, 2]);
        s
    }

    /// Alpha slow settings.
    pub fn alpha_slow() -> (s: Self)
        ensures
            Self::preset(
                4,
                seq![true, true, true, true],
                false,
                (64, 64, 64),
                0,
                4,
                seq![4, 4, 4, 4, 4, 4, 4, 4],
                s,
            ),
    {
        let s = Self {
            channels: 4,
            mode_selection: [true, true, true, true],
            skip_mode2: false,
            fast_skip_threshold_mode1: 64,
            fast_skip_threshold_mode3: 64,
            fast_skip_threshold_mode7: 64,
            mode45_channel0: 0,
            refine_iterations_channel: 4,
            refine_iterations: [4, 4, 4, 4, 4, 4, 4, 4],
        };
        assert(s.mode_selection@ =~= seq![true, true, true, true]);
        assert(s.refine_iterations@ =~= seq![4, 4, 4, 4, 4, 4, 4, 4]);
        s
    }
}

} // verus!
