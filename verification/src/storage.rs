//! Where log lines are stored: numbered log files under a directory per day
//! and log type, each file growing up to a size limit.
use vstd::prelude::*;
use vstd::string::StringExecFns;
use crate::clock::{now_date, now_date_time, date_days_ago, is_date_text, is_date_time_text};
use crate::text::{
    decimal, decimal_string, greatest_text, parse_i32, parse_i32_spec, signed_decimal,
    signed_decimal_string, text_lt, text_less, last_index, last_index_of,
};
use vstd::string::StrSliceExecFns;

verus! {

#[verifier::external_type_specification]
#[verifier::external_body]
pub struct ExIoError(std::io::Error);

/// A place that stores log lines.
pub trait IStorage {
    /// Stores `content` of type `logType` for the server key `path`.
    #[allow(non_snake_case)]
    fn write(&mut self, path: &str, logType: &str, content: &str) -> Result<(), std::io::Error>;
}

/// Stores log lines in files.
pub struct CFile {}

/// A log file grows until it holds more than this many bytes; then the next
/// numbered file is started.
pub const LOG_FILE_MAX_BYTE_LEN: u64 = 10240;

/// The number of the first log file in a directory.
pub const FIRST_LOG_INDEX: u64 = 1;

/// What was found at the path of a numbered log file.
pub enum FileProbe {
    /// There is no file.
    Missing,
    /// There is a file of this many bytes.
    Size(u64),
    /// There is a file, but its size could not be read.
    MetadataError,
}

/// What to do after looking at a numbered log file.
pub enum FindStep {
    /// Look at the file with this number next.
    Next(u64),
    /// Write to the file with this number.
    Use(u64),
    /// Give up: the size of a file could not be read.
    Fail,
}

/// `<dir>/<index>.log`.
pub open spec fn log_file_path(dir: Seq<char>, index: nat) -> Seq<char> {
    dir + seq!['/'] + decimal(index) + seq!['.', 'l', 'o', 'g']
}

/// The decision `findFile` takes at file `index` after looking at it: a file
/// that is missing or not over the limit is used, a file over the limit
/// sends it to the next number.
pub open spec fn find_step(index: u64, probe: FileProbe) -> FindStep {
    match probe {
        FileProbe::Missing => FindStep::Use(index),
        FileProbe::Size(n) => if n > LOG_FILE_MAX_BYTE_LEN {
            FindStep::Next((index + 1) as u64)
        } else {
            FindStep::Use(index)
        },
        FileProbe::MetadataError => FindStep::Fail,
    }
}

impl CFile {
    /// A file store.
    pub fn new() -> (res: CFile) {
        CFile {}
    }

    /// The local time now.
    pub fn now(&self) -> (res: String)
        ensures
            is_date_time_text(res@),
    {
        now_date_time()
    }

    /// The local date now: it names the directory of the day's logs.
    #[allow(non_snake_case)]
    pub fn nowDate(&self) -> (res: String)
        ensures
            is_date_text(res@),
    {
        now_date()
    }

    /// The path of log file number `index` in `dir`: `<dir>/<index>.log`.
    #[allow(non_snake_case)]
    pub fn joinPath(&self, dir: &str, index: u64) -> (res: String)
        ensures
            res@ == log_file_path(dir@, index as nat),
    {
        let mut path = String::new();
        path.append(dir);
        path.append("/");
        let number = decimal_string(index);
        path.append(number.as_str());
        path.append(".log");
        proof {
            reveal_strlit("/");
            reveal_strlit(".log");
            assert(path@ =~= log_file_path(dir@, index as nat));
        }
        path
    }

    /// One step of the search for the log file to write to, which starts at
    /// `FIRST_LOG_INDEX`: after looking at the file numbered `index`, says
    /// which file to look at next, or which to use.
    #[allow(non_snake_case)]
    pub fn findFileStep(&self, index: u64, probe: FileProbe) -> (res: FindStep)
        requires
            probe matches FileProbe::Size(n) && n > LOG_FILE_MAX_BYTE_LEN ==> index < u64::MAX,
        ensures
            res == find_step(index, probe),
    {
        match probe {
            FileProbe::Missing => FindStep::Use(index),
            FileProbe::Size(n) => {
                if n > LOG_FILE_MAX_BYTE_LEN {
                    FindStep::Next(index + 1)
                } else {
                    FindStep::Use(index)
                }
            },
            FileProbe::MetadataError => FindStep::Fail,
        }
    }
}

/// The file at this number is too big to write to.
pub open spec fn is_full(probe: FileProbe) -> bool {
    probe matches FileProbe::Size(n) && n > LOG_FILE_MAX_BYTE_LEN
}

/// Where repeated `find_step`s lead, from file `index` on, when the files at
/// `index`, `index + 1`, ... look as `probes` says: the decision on the first
/// file that is not too big, or a request for the next file where `probes`
/// run out first.
pub open spec fn run_find(probes: Seq<FileProbe>, index: u64) -> FindStep
    decreases probes.len(),
{
    if probes.len() == 0 {
        FindStep::Next(index)
    } else {
        match find_step(index, probes[0]) {
            FindStep::Next(next) => run_find(probes.drop_first(), next),
            other => other,
        }
    }
}

/// The search for the log file writes to the first file, from where it
/// starts, that is missing or not over the limit, and gives up at the first
/// file whose size cannot be read; the too-big files before it are passed
/// over.
pub proof fn lemma_find_file_picks_first_fitting(probes: Seq<FileProbe>, index: u64, j: int)
    requires
        0 <= j < probes.len(),
        index + j <= u64::MAX,
        forall|k: int| 0 <= k < j ==> is_full(#[trigger] probes[k]),
        !is_full(probes[j]),
    ensures
        run_find(probes, index) == if probes[j] is MetadataError {
            FindStep::Fail
        } else {
            FindStep::Use((index + j) as u64)
        },
    decreases j,
{
    if j > 0 {
        assert(is_full(probes[0]));
        let rest = probes.drop_first();
        assert forall|k: int| 0 <= k < j - 1 implies is_full(#[trigger] rest[k]) by {
            assert(rest[k] == probes[k + 1]);
        }
        assert(rest[j - 1] == probes[j]);
        lemma_find_file_picks_first_fitting(rest, (index + 1) as u64, j - 1);
    }
}

/// `<index>.log`.
pub open spec fn log_file_name_text(index: nat) -> Seq<char> {
    decimal(index) + seq!['.', 'l', 'o', 'g']
}

/// Which file to write to, chosen from the names of the files in a
/// directory.
pub enum ListedChoice {
    /// There are no files: start with file number 1.
    FirstFile,
    /// The file at this position, the greatest name, still has room.
    Greatest(usize),
    /// The file at this position, the greatest name, is full: use the number
    /// after the one in its name.
    AfterGreatest(usize),
    /// The size of the greatest file could not be read.
    NotFound,
}

impl CFile {
    /// The name of log file number `index`: `<index>.log`.
    #[allow(non_snake_case)]
    pub fn logFileName(&self, index: u64) -> (res: String)
        ensures
            res@ == log_file_name_text(index as nat),
    {
        let mut name = decimal_string(index);
        name.append(".log");
        proof {
            reveal_strlit(".log");
            assert(name@ =~= log_file_name_text(index as nat));
        }
        name
    }

    /// The file to write to, chosen from the paths `names` of the files in a
    /// directory and the size of the greatest of them (`None` where it could
    /// not be read): no file gives the first file; a greatest file that still
    /// has room is used; a full one gives the number after its own.
    #[allow(non_snake_case)]
    pub fn listedFileChoice(&self, names: &Vec<String>, sizeOfGreatest: Option<u64>) -> (res: ListedChoice)
        ensures
            names@.len() == 0 <==> res is FirstFile,
            res is NotFound ==> sizeOfGreatest is None,
            names@.len() > 0 && sizeOfGreatest is None ==> res is NotFound,
            match res {
                ListedChoice::Greatest(i) => i < names@.len() && (forall|j: int|
                    0 <= j < names@.len() ==> !text_lt(names@[i as int]@, #[trigger] names@[j]@))
                    && (sizeOfGreatest matches Some(n) && n <= LOG_FILE_MAX_BYTE_LEN),
                ListedChoice::AfterGreatest(i) => i < names@.len() && (forall|j: int|
                    0 <= j < names@.len() ==> !text_lt(names@[i as int]@, #[trigger] names@[j]@))
                    && (sizeOfGreatest matches Some(n) && n > LOG_FILE_MAX_BYTE_LEN),
                _ => true,
            },
    {
        match greatest_text(names) {
            None => ListedChoice::FirstFile,
            Some(i) => match sizeOfGreatest {
                None => ListedChoice::NotFound,
                Some(n) => {
                    if n > LOG_FILE_MAX_BYTE_LEN {
                        ListedChoice::AfterGreatest(i)
                    } else {
                        ListedChoice::Greatest(i)
                    }
                },
            },
        }
    }

    /// The name of the file after a full one whose name without its
    /// extension is `stem`: the number in `stem` plus one, then `.log`; or
    /// `None` where `stem` is not a number.
    #[allow(non_snake_case)]
    pub fn nextLogName(&self, stem: &str) -> (res: Option<String>)
        requires
            parse_i32_spec(stem@) != Some(i32::MAX),
        ensures
            match parse_i32_spec(stem@) {
                Some(v) => res matches Some(name) && name@ == signed_decimal(v + 1) + seq!['.', 'l', 'o', 'g'],
                None => res is None,
            },
    {
        match parse_i32(stem) {
            Some(value) => {
                let value = value + 1;
                let mut name = signed_decimal_string(value);
                name.append(".log");
                proof {
                    reveal_strlit(".log");
                }
                Some(name)
            },
            None => None,
        }
    }
}

/// The name of a day's log directory: `YYYY-MM-DD`, digits and dashes.
pub open spec fn is_day_name(s: Seq<char>) -> bool {
    &&& s.len() == 10
    &&& forall|i: int|
        0 <= i < 10 ==> if i == 4 || i == 7 {
            #[trigger] s[i] == '-'
        } else {
            48 <= s[i] as u32 <= 57
        }
}

/// A day's log directory is past keeping when its day is not after the
/// cutoff date.
pub open spec fn is_expired_day(name: Seq<char>, cutoff: Seq<char>) -> bool {
    is_day_name(name) && !text_lt(cutoff, name)
}

/// The positions, in order, of the first `n` names that are days past
/// keeping.
pub open spec fn expired_positions(names: Seq<Seq<char>>, cutoff: Seq<char>, n: nat) -> Seq<usize>
    decreases n,
{
    if n == 0 {
        Seq::empty()
    } else {
        expired_positions(names, cutoff, (n - 1) as nat) + if is_expired_day(names[n - 1], cutoff) {
            seq![(n - 1) as usize]
        } else {
            Seq::empty()
        }
    }
}

fn is_day_name_exec(s: &str) -> (res: bool)
    ensures
        res == is_day_name(s@),
{
    if s.unicode_len() != 10 {
        return false;
    }
    let mut i: usize = 0;
    while i < 10
        invariant
            s@.len() == 10,
            i <= 10,
            forall|j: int|
                0 <= j < i ==> if j == 4 || j == 7 {
                    #[trigger] s@[j] == '-'
                } else {
                    48 <= s@[j] as u32 <= 57
                },
        decreases 10 - i,
    {
        let c = s.get_char(i);
        if i == 4 || i == 7 {
            if c != '-' {
                return false;
            }
        } else if !(48 <= c as u32 && c as u32 <= 57) {
            return false;
        }
        i = i + 1;
    }
    true
}

impl CFile {
    /// The day before which logs are not kept when `maxDay` days are kept:
    /// the local date `maxDay` days ago, where chrono can reach it: always up
    /// to a century back, never beyond 200,000,000 days back.
    #[allow(non_snake_case)]
    pub fn cutoffDate(&self, maxDay: u32) -> (res: Option<String>)
        ensures
            res matches Some(s) ==> is_date_text(s@),
            maxDay <= 36500 ==> res is Some,
            maxDay > 200_000_000 ==> res is None,
    {
        date_days_ago(maxDay)
    }

    /// Of the directory names `names` of a server's log tree, the positions,
    /// in order, of the days past keeping: named `YYYY-MM-DD` and not after
    /// `cutoff`.
    #[allow(non_snake_case)]
    pub fn expiredDays(&self, names: &Vec<String>, cutoff: &str) -> (res: Vec<usize>)
        ensures
            res@ == expired_positions(names@.map_values(|s: String| s@), cutoff@, names@.len()),
    {
        let ghost texts = names@.map_values(|s: String| s@);
        let mut res: Vec<usize> = Vec::new();
        let mut i: usize = 0;
        while i < names.len()
            invariant
                i <= names@.len(),
                texts == names@.map_values(|s: String| s@),
                res@ == expired_positions(texts, cutoff@, i as nat),
            decreases names@.len() - i,
        {
            let name = names[i].as_str();
            assert(texts[i as int] == name@);
            let expired = is_day_name_exec(name) && !text_less(cutoff, name);
            if expired {
                res.push(i);
            }
            proof {
                assert(texts.len() == names@.len());
                if expired {
                    assert(res@ =~= expired_positions(texts, cutoff@, i as nat) + seq![i]);
                } else {
                    assert(res@ =~= expired_positions(texts, cutoff@, i as nat) + Seq::<usize>::empty());
                }
            }
            i = i + 1;
        }
        res
    }
}

/// A day after the cutoff is kept: its directory is never among those past
/// keeping.
pub proof fn lemma_days_after_cutoff_are_kept(names: Seq<Seq<char>>, cutoff: Seq<char>, n: nat, k: int)
    requires
        n <= names.len(),
        names.len() <= usize::MAX,
        0 <= k < n,
        text_lt(cutoff, names[k]),
    ensures
        !expired_positions(names, cutoff, n).contains(k as usize),
    decreases n,
{
    let prev = expired_positions(names, cutoff, (n - 1) as nat);
    if k < n - 1 {
        lemma_days_after_cutoff_are_kept(names, cutoff, (n - 1) as nat, k);
    }
    lemma_positions_below(names, cutoff, (n - 1) as nat);
    let all = expired_positions(names, cutoff, n);
    if all.contains(k as usize) {
        let t = choose|t: int| 0 <= t < all.len() && all[t] == k as usize;
        if t < prev.len() {
            assert(prev[t] == all[t]);
            if k == n - 1 {
                assert(prev[t] < n - 1);
            } else {
                assert(prev.contains(k as usize));
            }
        } else {
            assert(is_expired_day(names[n - 1], cutoff));
            assert(all[t] == (n - 1) as usize);
        }
    }
}

proof fn lemma_positions_below(names: Seq<Seq<char>>, cutoff: Seq<char>, n: nat)
    ensures
        forall|t: int| 0 <= t < expired_positions(names, cutoff, n).len() ==> #[trigger] expired_positions(names, cutoff, n)[t] < n,
    decreases n,
{
    if n > 0 {
        lemma_positions_below(names, cutoff, (n - 1) as nat);
        let prev = expired_positions(names, cutoff, (n - 1) as nat);
        let all = expired_positions(names, cutoff, n);
        assert forall|t: int| 0 <= t < all.len() implies #[trigger] all[t] < n by {
            if t < prev.len() {
                assert(all[t] == prev[t]);
            }
        }
    }
}

/// `base` joined with `part` as `Path::join` joins paths on Unix: an
/// absolute `part` replaces `base`; otherwise a `/` stands between them,
/// unless `base` is empty or already ends in one.
pub open spec fn joined_path(base: Seq<char>, part: Seq<char>) -> Seq<char> {
    if part.len() > 0 && part[0] == '/' {
        part
    } else if base.len() == 0 || base.last() == '/' {
        base + part
    } else {
        base + seq!['/'] + part
    }
}

/// The last component of a path: what follows its last `/`.
pub open spec fn last_component(path: Seq<char>) -> Seq<char> {
    path.subrange(last_index_of(path, '/') + 1, path.len() as int)
}

/// The stem of a file path as a directory listing gives it (no `/` at its
/// end): its last component without the extension after the last dot,
/// where that dot is not the component's first character; `None` where
/// the last component is empty or `..`.
pub open spec fn file_stem_text(path: Seq<char>) -> Option<Seq<char>> {
    let name = last_component(path);
    if name.len() == 0 || name == seq!['.', '.'] {
        None
    } else if last_index_of(name, '.') > 0 {
        Some(name.subrange(0, last_index_of(name, '.')))
    } else {
        Some(name)
    }
}

/// `base` joined with `part`, as `Path::join` joins them on Unix.
pub fn join_path(base: &str, part: &str) -> (res: String)
    ensures
        res@ == joined_path(base@, part@),
{
    let np = part.unicode_len();
    if np > 0 && part.get_char(0) == '/' {
        return String::from_str(part);
    }
    let nb = base.unicode_len();
    let mut res = String::from_str(base);
    if nb > 0 && base.get_char(nb - 1) != '/' {
        res.append("/");
        proof { reveal_strlit("/"); }
    }
    res.append(part);
    assert(res@ =~= joined_path(base@, part@));
    res
}

/// The stem of the file path `path`, as `file_stem_text` says.
pub fn file_stem(path: &str) -> (res: Option<String>)
    ensures
        match file_stem_text(path@) {
            Some(t) => res matches Some(s) && s@ == t,
            None => res is None,
        },
{
    let n = path.unicode_len();
    proof { lemma_last_index_in(path@, '/'); }
    let start: usize = match last_index(path, '/') {
        Some(i) => i + 1,
        None => 0,
    };
    let name = path.substring_char(start, n);
    let m = name.unicode_len();
    if m == 0 {
        return None;
    }
    if m == 2 && name.get_char(0) == '.' && name.get_char(1) == '.' {
        assert(name@ =~= seq!['.', '.']);
        return None;
    }
    if m == 2 {
        assert(name@ != seq!['.', '.']) by {
            if name@ == seq!['.', '.'] {
                assert(name@[0] == '.' && name@[1] == '.');
            }
        }
    }
    proof { lemma_last_index_in(name@, '.'); }
    match last_index(name, '.') {
        Some(d) => {
            if d > 0 {
                Some(String::from_str(name.substring_char(0, d)))
            } else {
                Some(String::from_str(name))
            }
        },
        None => Some(String::from_str(name)),
    }
}

proof fn lemma_last_index_in(s: Seq<char>, c: char)
    ensures
        -1 <= last_index_of(s, c) < s.len(),
    decreases s.len(),
{
    if s.len() > 0 && s.last() != c {
        lemma_last_index_in(s.drop_last(), c);
    }
}

impl CFile {
    /// The directory of a day's logs of one type: `<root>/<date>/<type>`,
    /// joined as `Path::join` joins on Unix.
    #[allow(non_snake_case)]
    pub fn dayDirPath(&self, root: &str, date: &str, contentType: &str) -> (res: String)
        ensures
            res@ == joined_path(joined_path(root@, date@), contentType@),
    {
        let day = join_path(root, date);
        join_path(day.as_str(), contentType)
    }
}

} // verus!
