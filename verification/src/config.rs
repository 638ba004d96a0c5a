//! The immutable per-run configuration.
//!
//! Exactly one of the three segmentation modes must be chosen, carrying
//! its selector list; choosing none or several is a configuration error,
//! as is an empty selector list.

use crate::segment::Mode;
use crate::selector::split_at_delim;
use crate::selector::split_selectors;
use crate::text::push_char;
use vstd::prelude::*;

verus! {

/// A configuration problem that stops the run before any line is read.
#[derive(Clone, Copy, PartialEq, Eq, Structural, Debug)]
pub enum ConfigError {
    /// None, or more than one, of the byte / character / field modes was chosen.
    ModeSelection,
    /// The chosen selector list has no tokens.
    EmptySelectorList,
}

/// The resolved configuration of one run, immutable once built.
pub struct Config {
    /// The active segmentation mode.
    pub mode: Mode,
    /// The selector tokens, in the order supplied.
    pub selectors: Vec<String>,
    /// The input field delimiter byte (Fields mode).
    pub field_delim: u8,
    /// The output delimiter: it separates selector outputs, and in Fields
    /// mode also the segments within one resolved range.
    pub out_delim: String,
    /// Suppress lines without a delimiter occurrence (Fields mode).
    pub only_delimited: bool,
    /// The record terminator byte: NUL when zero-terminated, else newline.
    pub terminator: u8,
}

/// How many of the three mode selector lists were supplied.
pub open spec fn modes_chosen(
    bytes: Option<String>,
    characters: Option<String>,
    fields: Option<String>,
) -> int {
    (if bytes is Some {
        1int
    } else {
        0int
    }) + (if characters is Some {
        1int
    } else {
        0int
    }) + (if fields is Some {
        1int
    } else {
        0int
    })
}

/// The mode named by the one supplied selector list.
pub open spec fn chosen_mode(
    bytes: Option<String>,
    characters: Option<String>,
    fields: Option<String>,
) -> Mode {
    if bytes is Some {
        Mode::Bytes
    } else if characters is Some {
        Mode::Characters
    } else {
        Mode::Fields
    }
}

/// The one supplied selector list.
pub open spec fn chosen_list(
    bytes: Option<String>,
    characters: Option<String>,
    fields: Option<String>,
) -> Seq<char> {
    if bytes is Some {
        bytes->0@
    } else if characters is Some {
        characters->0@
    } else {
        fields->0@
    }
}

/// The output delimiter character: the one given, else the input delimiter.
pub open spec fn spec_out_delim(input_delim: char, output_delim: Option<char>) -> char {
    match output_delim {
        Some(c) => c,
        None => input_delim,
    }
}

impl Config {
    /// Builds the run configuration from the three mutually exclusive
    /// selector lists and the delimiter and terminator options.
    ///
    /// The input delimiter must fit in one byte. Exactly one selector
    /// list must be supplied and it must not be empty; the chosen list is
    /// split on commas into tokens, kept in order.
    pub fn new(
        bytes: Option<String>,
        characters: Option<String>,
        fields: Option<String>,
        input_delim: char,
        output_delim: Option<char>,
        only_delimited: bool,
        zero_terminated: bool,
    ) -> (r: Result<Config, ConfigError>)
        requires
            input_delim as u32 <= 255,
        ensures
            r == Err::<Config, ConfigError>(ConfigError::ModeSelection) <==> modes_chosen(
                bytes,
                characters,
                fields,
            ) != 1,
            r == Err::<Config, ConfigError>(ConfigError::EmptySelectorList) <==> (modes_chosen(
                bytes,
                characters,
                fields,
            ) == 1 && chosen_list(bytes, characters, fields).len() == 0),
            r matches Ok(cfg) ==> {
                &&& cfg.mode == chosen_mode(bytes, characters, fields)
                &&& cfg.selectors.deep_view() == split_at_delim(
                    chosen_list(bytes, characters, fields),
                    ',',
                )
                &&& cfg.field_delim == input_delim as u8
                &&& cfg.out_delim@ == seq![spec_out_delim(input_delim, output_delim)]
                &&& cfg.only_delimited == only_delimited
                &&& cfg.terminator == (if zero_terminated {
                    0u8
                } else {
                    10u8
                })
            },
    {
        let mut count: usize = 0;
        if bytes.is_some() {
            count = count + 1;
        }
        if characters.is_some() {
            count = count + 1;
        }
        if fields.is_some() {
            count = count + 1;
        }
        if count != 1 {
            return Err(ConfigError::ModeSelection);
        }
        let picked: (Mode, String) = if let Some(l) = bytes {
            (Mode::Bytes, l)
        } else if let Some(l) = characters {
            (Mode::Characters, l)
        } else {
            (Mode::Fields, fields.unwrap())
        };
        let (mode, list) = picked;
        if list.as_str().unicode_len() == 0 {
            return Err(ConfigError::EmptySelectorList);
        }
        let selectors = split_selectors(list.as_str());
        let out_ch = match output_delim {
            Some(c) => c,
            None => input_delim,
        };
        let mut od = String::new();
        push_char(&mut od, out_ch);
        proof {
            assert(od@ =~= seq![spec_out_delim(input_delim, output_delim)]);
        }
        Ok(
            Config {
                mode,
                selectors,
                field_delim: input_delim as u8,
                out_delim: od,
                only_delimited,
                terminator: if zero_terminated {
                    0
                } else {
                    10
                },
            },
        )
    }
}

} // verus!
