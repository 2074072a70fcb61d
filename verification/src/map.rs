//! What the kernel reports about a pinned map: its kind, sizes and flags.

use vstd::prelude::*;
use vstd::slice::slice_subrange;
use vstd::string::*;
use crate::text::{
    bounded_hex, chars_of, decimal_text, find_char, find_from, is_word, parse_hex, parse_unsigned,
    push_decimal, unsigned_field, unsigned_part,
};

verus! {

/// The kinds of map that the kernel knows, in the order of their codes.
#[derive(Debug, Clone, Copy, PartialEq, Eq, Structural)]
pub enum MapType {
    Unspec,
    Hash,
    Array,
    ProgArray,
    PerfEventArray,
    PerCPUHash,
    PerCPUArray,
    StackTrace,
    CgroupArray,
    LRUHash,
    LRUPerCPUHash,
    LPMTrie,
}

impl MapType {
    /// The highest code that names a kind.
    pub const MAX_CODE: u8 = 11;

    /// The code under which the kernel reports this kind.
    pub open spec fn code(self) -> nat {
        match self {
            MapType::Unspec => 0,
            MapType::Hash => 1,
            MapType::Array => 2,
            MapType::ProgArray => 3,
            MapType::PerfEventArray => 4,
            MapType::PerCPUHash => 5,
            MapType::PerCPUArray => 6,
            MapType::StackTrace => 7,
            MapType::CgroupArray => 8,
            MapType::LRUHash => 9,
            MapType::LRUPerCPUHash => 10,
            MapType::LPMTrie => 11,
        }
    }

    /// The kind that the kernel reports under `code`; codes above the highest
    /// name the last kind.
    pub open spec fn of_code(code: nat) -> MapType {
        if code == 0 {
            MapType::Unspec
        } else if code == 1 {
            MapType::Hash
        } else if code == 2 {
            MapType::Array
        } else if code == 3 {
            MapType::ProgArray
        } else if code == 4 {
            MapType::PerfEventArray
        } else if code == 5 {
            MapType::PerCPUHash
        } else if code == 6 {
            MapType::PerCPUArray
        } else if code == 7 {
            MapType::StackTrace
        } else if code == 8 {
            MapType::CgroupArray
        } else if code == 9 {
            MapType::LRUHash
        } else if code == 10 {
            MapType::LRUPerCPUHash
        } else {
            MapType::LPMTrie
        }
    }

    /// The name of this kind.
    pub open spec fn name_text(self) -> Seq<char> {
        match self {
            MapType::Unspec => "Unspec"@,
            MapType::Hash => "Hash"@,
            MapType::Array => "Array"@,
            MapType::ProgArray => "ProgArray"@,
            MapType::PerfEventArray => "PerfEventArray"@,
            MapType::PerCPUHash => "PerCPUHash"@,
            MapType::PerCPUArray => "PerCPUArray"@,
            MapType::StackTrace => "StackTrace"@,
            MapType::CgroupArray => "CgroupArray"@,
            MapType::LRUHash => "LRUHash"@,
            MapType::LRUPerCPUHash => "LRUPerCPUHash"@,
            MapType::LPMTrie => "LPMTrie"@,
        }
    }

    /// The name of this kind.
    pub fn name(&self) -> (text: &'static str)
        ensures
            text@ == self.name_text(),
    {
        match self {
            MapType::Unspec => "Unspec",
            MapType::Hash => "Hash",
            MapType::Array => "Array",
            MapType::ProgArray => "ProgArray",
            MapType::PerfEventArray => "PerfEventArray",
            MapType::PerCPUHash => "PerCPUHash",
            MapType::PerCPUArray => "PerCPUArray",
            MapType::StackTrace => "StackTrace",
            MapType::CgroupArray => "CgroupArray",
            MapType::LRUHash => "LRUHash",
            MapType::LRUPerCPUHash => "LRUPerCPUHash",
            MapType::LPMTrie => "LPMTrie",
        }
    }

    /// The kind that the code `val` names.
    pub fn from(val: u8) -> (kind: MapType)
        requires
            val <= MapType::MAX_CODE,
        ensures
            kind == MapType::of_code(val as nat),
            kind.code() == val,
    {
        match val {
            0 => MapType::Unspec,
            1 => MapType::Hash,
            2 => MapType::Array,
            3 => MapType::ProgArray,
            4 => MapType::PerfEventArray,
            5 => MapType::PerCPUHash,
            6 => MapType::PerCPUArray,
            7 => MapType::StackTrace,
            8 => MapType::CgroupArray,
            9 => MapType::LRUHash,
            10 => MapType::LRUPerCPUHash,
            _ => MapType::LPMTrie,
        }
    }
}

/// What the kernel reports about an opened map.
#[derive(Debug, Clone, Copy, PartialEq, Eq, Structural)]
pub struct MapInfo {
    /// The descriptor under which the map is open.
    pub fd: i32,
    /// The kind of map.
    pub map_type: MapType,
    /// The length of a key in bytes.
    pub key_size: usize,
    /// The length of a value in bytes.
    pub value_size: usize,
    /// The number of entries the map can hold.
    pub max_entries: usize,
    /// The flags the map was created with.
    pub map_flags: usize,
}

/// Why the kernel's report on a map could not be read.
#[derive(Debug, Clone, Copy, PartialEq, Eq, Structural)]
pub enum MetadataError {
    /// A line is not a name and a value with one tab between them.
    MalformedLine,
    /// The value of a known name is not a number in its range.
    MalformedValue,
}

/// The line of `s` that starts at `from`, without its line ending: a line
/// feed, or a carriage return and a line feed.
pub open spec fn line_at(s: Seq<char>, from: int) -> Seq<char> {
    let end = find_char(s, from, '\n');
    if end < s.len() && from < end && s[end - 1] == '\r' {
        s.subrange(from, end - 1)
    } else {
        s.subrange(from, end)
    }
}

/// What a flags value reads as: two characters that announce the base, then
/// a hexadecimal number of at most `max`, which a plus sign may precede.
pub open spec fn flags_field(s: Seq<char>, max: nat) -> Option<u64> {
    if s.len() < 2 {
        None
    } else {
        bounded_hex(unsigned_part(s.subrange(2, s.len() as int)), max)
    }
}

/// What one line of the report does to `m`.
///
/// The line must hold exactly one tab, between a name and a value. The value
/// of a known name replaces the field of that name; lines of other names
/// change nothing.
pub open spec fn read_line(m: MapInfo, line: Seq<char>) -> Result<MapInfo, MetadataError> {
    let tab = find_char(line, 0, '\t');
    if tab >= line.len() || find_char(line, tab + 1, '\t') < line.len() {
        Err(MetadataError::MalformedLine)
    } else {
        let name = line.subrange(0, tab);
        let value = line.subrange(tab + 1, line.len() as int);
        if name == "map_type:"@ {
            match unsigned_field(value, MapType::MAX_CODE as nat) {
                Some(v) => Ok(
                    MapInfo {
                        fd: m.fd,
                        map_type: MapType::of_code(v as nat),
                        key_size: m.key_size,
                        value_size: m.value_size,
                        max_entries: m.max_entries,
                        map_flags: m.map_flags,
                    },
                ),
                None => Err(MetadataError::MalformedValue),
            }
        } else if name == "key_size:"@ {
            match unsigned_field(value, usize::MAX as nat) {
                Some(v) => Ok(
                    MapInfo {
                        fd: m.fd,
                        map_type: m.map_type,
                        key_size: v as usize,
                        value_size: m.value_size,
                        max_entries: m.max_entries,
                        map_flags: m.map_flags,
                    },
                ),
                None => Err(MetadataError::MalformedValue),
            }
        } else if name == "value_size:"@ {
            match unsigned_field(value, usize::MAX as nat) {
                Some(v) => Ok(
                    MapInfo {
                        fd: m.fd,
                        map_type: m.map_type,
                        key_size: m.key_size,
                        value_size: v as usize,
                        max_entries: m.max_entries,
                        map_flags: m.map_flags,
                    },
                ),
                None => Err(MetadataError::MalformedValue),
            }
        } else if name == "max_entries:"@ {
            match unsigned_field(value, usize::MAX as nat) {
                Some(v) => Ok(
                    MapInfo {
                        fd: m.fd,
                        map_type: m.map_type,
                        key_size: m.key_size,
                        value_size: m.value_size,
                        max_entries: v as usize,
                        map_flags: m.map_flags,
                    },
                ),
                None => Err(MetadataError::MalformedValue),
            }
        } else if name == "map_flags:"@ {
            match flags_field(value, usize::MAX as nat) {
                Some(v) => Ok(
                    MapInfo {
                        fd: m.fd,
                        map_type: m.map_type,
                        key_size: m.key_size,
                        value_size: m.value_size,
                        max_entries: m.max_entries,
                        map_flags: v as usize,
                    },
                ),
                None => Err(MetadataError::MalformedValue),
            }
        } else {
            Ok(m)
        }
    }
}

/// The end of a line is not before its start.
pub proof fn lemma_find_char_bounds(s: Seq<char>, from: int, c: char)
    requires
        0 <= from <= s.len(),
    ensures
        from <= find_char(s, from, c) <= s.len(),
    decreases s.len() - from,
{
    if from < s.len() && s[from] != c {
        lemma_find_char_bounds(s, from + 1, c);
    }
}

/// What the lines of `s` from `from` on do to `m`, one after the other; the
/// first line that cannot be read ends the reading.
pub open spec fn read_lines(s: Seq<char>, from: int, m: MapInfo) -> Result<MapInfo, MetadataError>
    decreases s.len() - from,
{
    if from < 0 || from >= s.len() {
        Ok(m)
    } else {
        match read_line(m, line_at(s, from)) {
            Err(e) => Err(e),
            Ok(next) => {
                proof {
                    lemma_find_char_bounds(s, from, '\n');
                }
                if find_char(s, from, '\n') >= s.len() {
                    Ok(next)
                } else {
                    read_lines(s, find_char(s, from, '\n') + 1, next)
                }
            },
        }
    }
}

/// The text that describes `m`: its kind, sizes and capacity, a line each.
pub open spec fn describe_text(m: MapInfo) -> Seq<char> {
    "Type:          "@ + m.map_type.name_text() + "\n"@ + "Key size:      "@ + decimal_text(
        m.key_size as nat,
    ) + "\n"@ + "Value size:    "@ + decimal_text(m.value_size as nat) + "\n"@
        + "Max entries:   "@ + decimal_text(m.max_entries as nat)
}

fn apply_line(m: MapInfo, line: &[char]) -> (r: Result<MapInfo, MetadataError>)
    ensures
        r == read_line(m, line@),
{
    let tab = find_from(line, 0, '\t');
    if tab >= line.len() {
        return Err(MetadataError::MalformedLine);
    }
    if find_from(line, tab + 1, '\t') < line.len() {
        return Err(MetadataError::MalformedLine);
    }
    let name = slice_subrange(line, 0, tab);
    let value = slice_subrange(line, tab + 1, line.len());
    let mut next = m;
    if is_word(name, "map_type:") {
        match parse_unsigned(value, MapType::MAX_CODE as u64) {
            Some(v) => {
                next.map_type = MapType::from(v as u8);
            },
            None => {
                return Err(MetadataError::MalformedValue);
            },
        }
    } else if is_word(name, "key_size:") {
        match parse_unsigned(value, usize::MAX as u64) {
            Some(v) => {
                next.key_size = v as usize;
            },
            None => {
                return Err(MetadataError::MalformedValue);
            },
        }
    } else if is_word(name, "value_size:") {
        match parse_unsigned(value, usize::MAX as u64) {
            Some(v) => {
                next.value_size = v as usize;
            },
            None => {
                return Err(MetadataError::MalformedValue);
            },
        }
    } else if is_word(name, "max_entries:") {
        match parse_unsigned(value, usize::MAX as u64) {
            Some(v) => {
                next.max_entries = v as usize;
            },
            None => {
                return Err(MetadataError::MalformedValue);
            },
        }
    } else if is_word(name, "map_flags:") {
        if value.len() < 2 {
            return Err(MetadataError::MalformedValue);
        }
        let start: usize = if value.len() > 2 && value[2] == '+' {
            3
        } else {
            2
        };
        proof {
            let rest = value@.subrange(2, value@.len() as int);
            assert(value@.subrange(start as int, value@.len() as int) =~= unsigned_part(rest));
        }
        match parse_hex(value, start, usize::MAX as u64) {
            Some(v) => {
                next.map_flags = v as usize;
            },
            None => {
                return Err(MetadataError::MalformedValue);
            },
        }
    }
    Ok(next)
}

impl MapInfo {
    /// What is known of a map before the kernel has said anything of it.
    pub open spec fn unset() -> MapInfo {
        MapInfo {
            fd: 0,
            map_type: MapType::Unspec,
            key_size: 0,
            value_size: 0,
            max_entries: 0,
            map_flags: 0,
        }
    }

    /// What is known of a map that is open under `fd` before the kernel has
    /// said anything else of it.
    pub open spec fn opened(fd: i32) -> MapInfo {
        MapInfo { fd, map_type: MapType::Unspec, key_size: 0, value_size: 0, max_entries: 0, map_flags: 0 }
    }

    /// Reads the kernel's report on the map that is open under `fd`.
    ///
    /// `info` is the text that the kernel shows for the descriptor: lines of
    /// a name, a tab and a value. The lines are read in order, so that of two
    /// lines of one name the later counts. Fails on the first line that is
    /// not of this form, or whose name is known and whose value is no number
    /// in the field's range.
    pub fn from_fdinfo(fd: i32, info: &str) -> (r: Result<MapInfo, MetadataError>)
        ensures
            r == read_lines(info@, 0, MapInfo::opened(fd)),
    {
        let chars = chars_of(info);
        let s = chars.as_slice();
        let mut m = MapInfo {
            fd,
            map_type: MapType::Unspec,
            key_size: 0,
            value_size: 0,
            max_entries: 0,
            map_flags: 0,
        };
        let mut pos: usize = 0;
        while pos < s.len()
            invariant
                pos <= s.len(),
                s@ == info@,
                read_lines(info@, 0, MapInfo::opened(fd)) == read_lines(s@, pos as int, m),
            decreases s.len() - pos,
        {
            let end = find_from(s, pos, '\n');
            let stop = if end < s.len() && pos < end && s[end - 1] == '\r' {
                end - 1
            } else {
                end
            };
            let line = slice_subrange(s, pos, stop);
            assert(line@ == line_at(s@, pos as int));
            match apply_line(m, line) {
                Err(e) => {
                    return Err(e);
                },
                Ok(next) => {
                    m = next;
                },
            }
            if end == s.len() {
                return Ok(m);
            }
            pos = end + 1;
        }
        Ok(m)
    }

    /// Describes the map in words: its kind, sizes and capacity.
    pub fn describe(&self) -> (text: String)
        ensures
            text@ == describe_text(*self),
    {
        let mut text = String::from_str("Type:          ");
        text.append(self.map_type.name());
        text.append("\n");
        text.append("Key size:      ");
        push_decimal(&mut text, self.key_size as u64);
        text.append("\n");
        text.append("Value size:    ");
        push_decimal(&mut text, self.value_size as u64);
        text.append("\n");
        text.append("Max entries:   ");
        push_decimal(&mut text, self.max_entries as u64);
        assert(text@ =~= describe_text(*self));
        text
    }
}

impl Default for MapInfo {
    /// What is known of a map before the kernel has said anything of it.
    fn default() -> (m: MapInfo)
        ensures
            m == MapInfo::unset(),
    {
        MapInfo { fd: 0, map_type: MapType::Unspec, key_size: 0, value_size: 0, max_entries: 0, map_flags: 0 }
    }
}

} // verus!
