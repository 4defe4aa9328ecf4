//! How much work a recovery may take.

use vstd::prelude::*;

verus! {

/// How thoroughly to search.
#[derive(Clone, Copy, Debug, PartialEq, Eq, Structural)]
pub enum Effort {
    Fast,
    Balanced,
    Thorough,
}

/// The intensity that a gray image is made from.
#[derive(Clone, Copy, Debug, PartialEq, Eq, Structural)]
pub enum Channel {
    Luma,
    Red,
    Green,
    Blue,
    Min,
}

/// The effort that `text` names, if it names one.
pub open spec fn effort_named(text: Seq<char>) -> Option<Effort> {
    if text == "fast"@ {
        Some(Effort::Fast)
    } else if text == "balanced"@ {
        Some(Effort::Balanced)
    } else if text == "thorough"@ {
        Some(Effort::Thorough)
    } else {
        None
    }
}

/// The name of a channel.
pub open spec fn channel_name(channel: Channel) -> Seq<char> {
    match channel {
        Channel::Luma => "luma"@,
        Channel::Red => "red"@,
        Channel::Green => "green"@,
        Channel::Blue => "blue"@,
        Channel::Min => "min"@,
    }
}

/// How many variants of an image are tried at most.
pub open spec fn variant_limit(effort: Effort) -> int {
    match effort {
        Effort::Fast => 20,
        Effort::Balanced => 102,
        Effort::Thorough => 262,
    }
}

/// The factors by which an image is enlarged.
pub open spec fn scales(effort: Effort) -> Seq<u32> {
    match effort {
        Effort::Fast => seq![1u32, 2],
        Effort::Balanced => seq![1u32, 2, 3, 4],
        Effort::Thorough => seq![1u32, 2, 3, 4, 6],
    }
}

/// The channels that are looked at.
pub open spec fn channels(effort: Effort) -> Seq<Channel> {
    match effort {
        Effort::Fast => seq![Channel::Luma],
        Effort::Balanced => seq![Channel::Luma, Channel::Green, Channel::Red, Channel::Blue],
        Effort::Thorough => seq![
            Channel::Luma,
            Channel::Green,
            Channel::Red,
            Channel::Blue,
            Channel::Min,
        ],
    }
}

/// Window and bias of the adaptive thresholds.
pub open spec fn adaptive_settings(effort: Effort) -> Seq<(u32, u32)> {
    match effort {
        Effort::Fast => seq![(21u32, 5u32), (35, 8)],
        Effort::Balanced => seq![(15u32, 3u32), (25, 5), (41, 8)],
        Effort::Thorough => seq![(11u32, 2u32), (17, 3), (25, 5), (35, 7), (51, 10)],
    }
}

/// The decoding attempts allowed per symbol candidate.
pub open spec fn candidate_attempts(effort: Effort) -> int {
    match effort {
        Effort::Fast => 2_000,
        Effort::Balanced => 50_000,
        Effort::Thorough => 500_000,
    }
}

/// How many of the least reliable bits are flipped tentatively.
pub open spec fn chase_bits(effort: Effort) -> int {
    match effort {
        Effort::Fast => 0,
        Effort::Balanced => 12,
        Effort::Thorough => 18,
    }
}

/// How many variants must agree on a payload before the search may end.
pub open spec fn confirmation_reads(effort: Effort) -> int {
    match effort {
        Effort::Fast => 2,
        Effort::Balanced => 2,
        Effort::Thorough => 3,
    }
}

/// How many variants must be tried after the first read before the search may
/// end.
pub open spec fn confirmation_window(effort: Effort) -> int {
    match effort {
        Effort::Fast => 4,
        Effort::Balanced => 6,
        Effort::Thorough => 12,
    }
}

/// The time allowed if none is given, in microseconds.
pub open spec fn default_micros(effort: Effort) -> int {
    match effort {
        Effort::Fast => 10_000_000,
        Effort::Balanced => 60_000_000,
        Effort::Thorough => 600_000_000,
    }
}

/// What an effort allows.
#[derive(Debug)]
pub struct EffortProfile {
    pub variant_limit: usize,
    pub scales: Vec<u32>,
    pub channels: Vec<Channel>,
    pub adaptive: Vec<(u32, u32)>,
    pub candidate_attempts: usize,
    pub chase_bits: usize,
    pub confirmation_reads: usize,
    pub confirmation_window: usize,
    pub default_micros: u64,
}

/// Whether a profile is that of `effort`.
pub open spec fn profiles(profile: EffortProfile, effort: Effort) -> bool {
    &&& profile.variant_limit == variant_limit(effort)
    &&& profile.scales@ == scales(effort)
    &&& profile.channels@ == channels(effort)
    &&& profile.adaptive@ == adaptive_settings(effort)
    &&& profile.candidate_attempts == candidate_attempts(effort)
    &&& profile.chase_bits == chase_bits(effort)
    &&& profile.confirmation_reads == confirmation_reads(effort)
    &&& profile.confirmation_window == confirmation_window(effort)
    &&& profile.default_micros == default_micros(effort)
}

/// What `effort` allows.
pub fn effort_profile(effort: Effort) -> (profile: EffortProfile)
    ensures
        profiles(profile, effort),
{
    let profile: EffortProfile = match effort {
        Effort::Fast => EffortProfile {
            variant_limit: 20,
            scales: vec![1u32, 2],
            channels: vec![Channel::Luma],
            adaptive: vec![(21u32, 5u32), (35, 8)],
            candidate_attempts: 2_000,
            chase_bits: 0,
            confirmation_reads: 2,
            confirmation_window: 4,
            default_micros: 10_000_000,
        },
        Effort::Balanced => EffortProfile {
            variant_limit: 102,
            scales: vec![1u32, 2, 3, 4],
            channels: vec![Channel::Luma, Channel::Green, Channel::Red, Channel::Blue],
            adaptive: vec![(15u32, 3u32), (25, 5), (41, 8)],
            candidate_attempts: 50_000,
            chase_bits: 12,
            confirmation_reads: 2,
            confirmation_window: 6,
            default_micros: 60_000_000,
        },
        Effort::Thorough => EffortProfile {
            variant_limit: 262,
            scales: vec![1u32, 2, 3, 4, 6],
            channels: vec![
                Channel::Luma,
                Channel::Green,
                Channel::Red,
                Channel::Blue,
                Channel::Min,
            ],
            adaptive: vec![(11u32, 2u32), (17, 3), (25, 5), (35, 7), (51, 10)],
            candidate_attempts: 500_000,
            chase_bits: 18,
            confirmation_reads: 3,
            confirmation_window: 12,
            default_micros: 600_000_000,
        },
    };
    assert(profile.scales@ =~= scales(effort));
    assert(profile.channels@ =~= channels(effort));
    assert(profile.adaptive@ =~= adaptive_settings(effort));
    profile
}

impl Effort {
    /// The effort that `text` names, if it names one.
    pub fn parse(text: &str) -> (effort: Option<Effort>)
        ensures
            effort == effort_named(text@),
    {
        let text: String = String::from_str(text);
        if text == String::from_str("fast") {
            Some(Effort::Fast)
        } else if text == String::from_str("balanced") {
            Some(Effort::Balanced)
        } else if text == String::from_str("thorough") {
            Some(Effort::Thorough)
        } else {
            None
        }
    }
}

impl Channel {
    /// The name of the channel.
    pub fn name(&self) -> (name: &'static str)
        ensures
            name@ == channel_name(*self),
    {
        match self {
            Channel::Luma => "luma",
            Channel::Red => "red",
            Channel::Green => "green",
            Channel::Blue => "blue",
            Channel::Min => "min",
        }
    }
}

} // verus!
