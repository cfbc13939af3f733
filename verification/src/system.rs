use vstd::prelude::*;

use crate::text::{chars_equal, chars_of, lowercase_of, to_lowercase};

verus! {

/// `needle` occurs in `hay` as a contiguous run.
pub open spec fn contains_seq(hay: Seq<char>, needle: Seq<char>) -> bool {
    exists|i: int| 0 <= i <= hay.len() - needle.len() && #[trigger] hay.subrange(i, i + needle.len()) == needle
}

/// Whether `needle` occurs in `hay`, as `str::contains` decides.
pub fn contains_chars(hay: &[char], needle: &[char]) -> (r: bool)
    ensures
        r == contains_seq(hay@, needle@),
{
    if needle.len() == 0 {
        assert(hay@.subrange(0int, 0int + needle@.len()) =~= needle@);
        return true;
    }
    if needle.len() > hay.len() {
        return false;
    }
    let last = hay.len() - needle.len();
    assert(hay@.len() == hay.len());
    let mut i: usize = 0;
    while i <= last
        invariant
            last == hay@.len() - needle@.len(),
            hay@.len() == hay.len(),
            needle@.len() > 0,
            i <= last + 1,
            forall|k: int| 0 <= k < i ==> #[trigger] hay@.subrange(k, k + needle@.len()) != needle@,
        decreases last + 1 - i,
    {
        let mut j: usize = 0;
        let mut same = true;
        while j < needle.len()
            invariant
                i <= last,
                last == hay@.len() - needle@.len(),
                hay@.len() == hay.len(),
                needle@.len() == needle.len(),
                needle@.len() > 0,
                j <= needle@.len(),
                same == (forall|t: int| 0 <= t < j ==> hay@[i + t] == needle@[t]),
            decreases needle@.len() - j,
        {
            if hay[i + j] != needle[j] {
                same = false;
            }
            j = j + 1;
        }
        if same {
            assert(hay@.subrange(i as int, i + needle@.len()) =~= needle@);
            return true;
        }
        assert(hay@.subrange(i as int, i + needle@.len()) != needle@) by {
            let t = choose|t: int| 0 <= t < needle@.len() && hay@[i + t] != needle@[t];
            assert(hay@.subrange(i as int, i + needle@.len())[t] == hay@[i + t]);
        }
        i = i + 1;
    }
    false
}

/// The name that the assistant's process carries.
pub open spec fn app_name() -> Seq<char> {
    "babu-app"@
}

/// A running process: its identifier, name and resident memory in bytes.
#[derive(Debug)]
pub struct ProcessInfo {
    pub pid: u32,
    pub name: String,
    pub memory: u64,
}

/// Process `p` is the assistant: its lower-cased name contains "babu-app".
pub open spec fn is_app_process(p: ProcessInfo) -> bool {
    contains_seq(lowercase_of(p.name@), app_name())
}

/// The position of the first process in `procs` that is the assistant.
pub open spec fn first_app_process(procs: Seq<ProcessInfo>) -> Option<int>
    decreases procs.len(),
{
    if procs.len() == 0 {
        None
    } else {
        match first_app_process(procs.drop_last()) {
            Some(i) => Some(i),
            None => if is_app_process(procs.last()) {
                Some(procs.len() - 1)
            } else {
                None
            },
        }
    }
}

proof fn lemma_first_app_prefix(s: Seq<ProcessInfo>, m: int)
    requires
        0 <= m <= s.len(),
        first_app_process(s.take(m)) is Some,
    ensures
        first_app_process(s) == first_app_process(s.take(m)),
    decreases s.len() - m,
{
    if m < s.len() {
        assert(s.take(m + 1).drop_last() =~= s.take(m));
        lemma_first_app_prefix(s, m + 1);
    } else {
        assert(s.take(m) =~= s);
    }
}

/// Finds the assistant's process among `procs`, listed in the order they were
/// walked: the first whose lower-cased name contains "babu-app".
pub fn find_app_process(procs: &[ProcessInfo]) -> (r: Option<usize>)
    ensures
        (match r {
            Some(i) => Some(i as int),
            None => None,
        }) == first_app_process(procs@),
        r matches Some(i) ==> i < procs@.len(),
        r matches Some(i) ==> contains_seq(lowercase_of(procs@[i as int].name@), "babu-app"@),
        forall|j: int|
            0 <= j < procs@.len() && (r matches Some(i) ==> j < i) ==> !contains_seq(
                lowercase_of(#[trigger] procs@[j].name@),
                "babu-app"@,
            ),
{
    proof {
        lemma_first_app_process(procs@);
    }
    let needle = chars_of("babu-app");
    for i in 0..procs.len()
        invariant
            needle@ == app_name(),
            first_app_process(procs@.take(i as int)) is None,
    {
        assert(procs@.take(i + 1).drop_last() =~= procs@.take(i as int));
        assert(procs@.take(i + 1).last() == procs@[i as int]);
        let name = chars_of(procs[i].name.as_str());
        let lower = to_lowercase(&name);
        if contains_chars(&lower, &needle) {
            proof {
                lemma_first_app_prefix(procs@, i + 1);
                lemma_first_app_process(procs@);
                assert(first_app_process(procs@) == Some(i as int));
            }
            return Some(i);
        }
    }
    assert(procs@.take(procs@.len() as int) =~= procs@);
    None
}

/// The first process in `procs` is the assistant's exactly when its
/// lower-cased name contains "babu-app", and no earlier one's does.
pub proof fn lemma_first_app_process(procs: Seq<ProcessInfo>)
    ensures
        first_app_process(procs) matches Some(i) ==> 0 <= i < procs.len() && contains_seq(
            lowercase_of(procs[i].name@),
            "babu-app"@,
        ),
        forall|j: int|
            0 <= j < procs.len() && (first_app_process(procs) matches Some(i) ==> j < i)
                ==> !contains_seq(lowercase_of(#[trigger] procs[j].name@), "babu-app"@),
    decreases procs.len(),
{
    if procs.len() > 0 {
        let d = procs.drop_last();
        lemma_first_app_process(d);
        assert forall|j: int|
            0 <= j < procs.len() && (first_app_process(procs) matches Some(i) ==> j < i)
                implies !contains_seq(lowercase_of(#[trigger] procs[j].name@), "babu-app"@) by {
            if j < d.len() {
                assert(procs[j] == d[j]);
            }
        }
        if let Some(i) = first_app_process(d) {
            assert(procs[i] == d[i]);
        }
    }
}

/// Law: the assistant is found among the processes exactly when one of them
/// has a lower-cased name containing "babu-app"; the one found is the first
/// such, and its memory is the one reported, in whole mebibytes.
pub proof fn lemma_app_process_by_name(procs: Seq<ProcessInfo>)
    ensures
        first_app_process(procs) is Some <==> exists|j: int|
            0 <= j < procs.len() && contains_seq(lowercase_of(#[trigger] procs[j].name@), "babu-app"@),
        first_app_process(procs) matches Some(i) ==> 0 <= i < procs.len() && contains_seq(
            lowercase_of(procs[i].name@),
            "babu-app"@,
        ) && forall|j: int|
            0 <= j < i ==> !contains_seq(lowercase_of(#[trigger] procs[j].name@), "babu-app"@),
{
    lemma_first_app_process(procs);
}

/// Whether the assistant is among the running processes.
pub fn app_running(procs: &[ProcessInfo]) -> (r: bool)
    ensures
        r == first_app_process(procs@) is Some,
        r == exists|j: int|
            0 <= j < procs@.len() && contains_seq(lowercase_of(#[trigger] procs@[j].name@), "babu-app"@),
{
    proof {
        lemma_app_process_by_name(procs@);
    }
    find_app_process(procs).is_some()
}

/// The assistant's memory use in whole mebibytes, 0 when it is not running.
pub fn app_ram_usage_mb(procs: &[ProcessInfo]) -> (r: u64)
    ensures
        r == match first_app_process(procs@) {
            Some(i) => procs@[i].memory / 1024 / 1024,
            None => 0,
        },
        (forall|j: int|
            0 <= j < procs@.len() ==> !contains_seq(lowercase_of(#[trigger] procs@[j].name@), "babu-app"@))
            ==> r == 0,
        forall|i: int|
            0 <= i < procs@.len() && contains_seq(lowercase_of(procs@[i].name@), "babu-app"@) && (
            forall|j: int|
                0 <= j < i ==> !contains_seq(lowercase_of(#[trigger] procs@[j].name@), "babu-app"@))
                ==> r == procs@[i].memory / 1024 / 1024,
{
    proof {
        lemma_app_process_by_name(procs@);
    }
    match find_app_process(procs) {
        Some(i) => procs[i].memory / 1024 / 1024,
        None => 0,
    }
}

/// A sensor label names the processor: lower-cased, it contains "cpu",
/// "core" or "package".
pub open spec fn is_cpu_label(label: Seq<char>) -> bool {
    let l = lowercase_of(label);
    contains_seq(l, "cpu"@) || contains_seq(l, "core"@) || contains_seq(l, "package"@)
}

/// The position of the first sensor with a processor label and a reading.
pub open spec fn first_cpu_sensor(labels: Seq<Seq<char>>, has_reading: Seq<bool>) -> Option<int>
    decreases labels.len(),
{
    if labels.len() == 0 {
        None
    } else {
        let n = labels.len() - 1;
        match first_cpu_sensor(labels.drop_last(), has_reading.take(n)) {
            Some(i) => Some(i),
            None => if is_cpu_label(labels.last()) && has_reading[n] {
                Some(n)
            } else {
                None
            },
        }
    }
}

/// The sensor whose temperature is reported: the first with a processor label
/// and a reading; else the first sensor, when it has a reading; else none.
pub open spec fn chosen_sensor(labels: Seq<Seq<char>>, has_reading: Seq<bool>) -> Option<int> {
    match first_cpu_sensor(labels, has_reading) {
        Some(i) => Some(i),
        None => if labels.len() > 0 && has_reading[0] {
            Some(0)
        } else {
            None
        },
    }
}

/// The character sequences of a list of strings.
pub open spec fn labels_view(v: Seq<String>) -> Seq<Seq<char>> {
    v.map_values(|s: String| s@)
}

proof fn lemma_first_cpu_prefix(labels: Seq<Seq<char>>, has: Seq<bool>, m: int)
    requires
        labels.len() == has.len(),
        0 <= m <= labels.len(),
        first_cpu_sensor(labels.take(m), has.take(m)) is Some,
    ensures
        first_cpu_sensor(labels, has) == first_cpu_sensor(labels.take(m), has.take(m)),
    decreases labels.len() - m,
{
    if m < labels.len() {
        assert(labels.take(m + 1).drop_last() =~= labels.take(m));
        assert(has.take(m + 1).take(m) =~= has.take(m));
        lemma_first_cpu_prefix(labels, has, m + 1);
    } else {
        assert(labels.take(m) =~= labels);
        assert(has.take(m) =~= has);
    }
}

/// Law: the first sensor with a processor label and a reading is the first
/// whose lower-cased label contains "cpu", "core" or "package" and that has a
/// reading; when there is none, no such sensor exists.
pub proof fn lemma_first_cpu_sensor_by_label(labels: Seq<Seq<char>>, has: Seq<bool>)
    requires
        labels.len() == has.len(),
    ensures
        forall|l: Seq<char>|
            #[trigger] is_cpu_label(l) == (contains_seq(lowercase_of(l), "cpu"@) || contains_seq(
                lowercase_of(l),
                "core"@,
            ) || contains_seq(lowercase_of(l), "package"@)),
        first_cpu_sensor(labels, has) matches Some(i) ==> 0 <= i < labels.len() && has[i] && (
        contains_seq(lowercase_of(labels[i]), "cpu"@) || contains_seq(lowercase_of(labels[i]), "core"@)
            || contains_seq(lowercase_of(labels[i]), "package"@)),
        forall|j: int|
            0 <= j < labels.len() && (first_cpu_sensor(labels, has) matches Some(i) ==> j < i) && has[j]
                ==> !(contains_seq(lowercase_of(#[trigger] labels[j]), "cpu"@) || contains_seq(
                lowercase_of(labels[j]),
                "core"@,
            ) || contains_seq(lowercase_of(labels[j]), "package"@)),
    decreases labels.len(),
{
    if labels.len() > 0 {
        let n = labels.len() - 1;
        let d = labels.drop_last();
        let hd = has.take(n);
        lemma_first_cpu_sensor_by_label(d, hd);
        assert forall|j: int|
            0 <= j < labels.len() && (first_cpu_sensor(labels, has) matches Some(i) ==> j < i) && has[j]
                implies !(contains_seq(lowercase_of(#[trigger] labels[j]), "cpu"@) || contains_seq(
                lowercase_of(labels[j]),
                "core"@,
            ) || contains_seq(lowercase_of(labels[j]), "package"@)) by {
            if j < n {
                assert(labels[j] == d[j]);
                assert(has[j] == hd[j]);
            }
        }
        if let Some(i) = first_cpu_sensor(d, hd) {
            assert(labels[i] == d[i]);
            assert(has[i] == hd[i]);
        }
    }
}

/// Chooses the sensor whose temperature is reported as the processor's, given
/// each sensor's label and whether it has a reading.
pub fn pick_temperature_sensor(labels: &[String], has_reading: &[bool]) -> (r: Option<usize>)
    requires
        labels@.len() == has_reading@.len(),
    ensures
        (match r {
            Some(i) => Some(i as int),
            None => None,
        }) == chosen_sensor(labels_view(labels@), has_reading@),
        r matches Some(i) ==> i < labels@.len() && has_reading@[i as int],
        r matches Some(i) ==> (contains_seq(lowercase_of(labels@[i as int]@), "cpu"@) || contains_seq(
            lowercase_of(labels@[i as int]@),
            "core"@,
        ) || contains_seq(lowercase_of(labels@[i as int]@), "package"@)) || (i == 0 && forall|j: int|
            0 <= j < labels@.len() && #[trigger] has_reading@[j] ==> !(contains_seq(
                lowercase_of(labels@[j]@),
                "cpu"@,
            ) || contains_seq(lowercase_of(labels@[j]@), "core"@) || contains_seq(
                lowercase_of(labels@[j]@),
                "package"@,
            ))),
        forall|j: int|
            0 <= j < labels@.len() && (r matches Some(i) ==> j < i) && #[trigger] has_reading@[j]
                ==> !(contains_seq(lowercase_of(labels@[j]@), "cpu"@) || contains_seq(
                lowercase_of(labels@[j]@),
                "core"@,
            ) || contains_seq(lowercase_of(labels@[j]@), "package"@)),
        r is None ==> labels@.len() == 0 || !has_reading@[0],
{
    let ghost lv = labels_view(labels@);
    let cpu = chars_of("cpu");
    let core = chars_of("core");
    let package = chars_of("package");
    for i in 0..labels.len()
        invariant
            lv == labels_view(labels@),
            labels@.len() == has_reading@.len(),
            cpu@ == "cpu"@,
            core@ == "core"@,
            package@ == "package"@,
            first_cpu_sensor(lv.take(i as int), has_reading@.take(i as int)) is None,
    {
        assert(lv.take(i + 1).drop_last() =~= lv.take(i as int));
        assert(has_reading@.take(i + 1).take(i as int) =~= has_reading@.take(i as int));
        assert(lv.take(i + 1).last() == labels@[i as int]@);
        let label = chars_of(labels[i].as_str());
        let lower = to_lowercase(&label);
        let is_cpu = contains_chars(&lower, &cpu) || contains_chars(&lower, &core)
            || contains_chars(&lower, &package);
        if is_cpu && has_reading[i] {
            proof {
                lemma_first_cpu_prefix(lv, has_reading@, i + 1);
                lemma_first_cpu_sensor_by_label(lv, has_reading@);
                assert(first_cpu_sensor(lv, has_reading@) == Some(i as int));
                assert forall|j: int| 0 <= j < labels@.len() implies lv[j] == (#[trigger] labels@[j])@ by {}
            }
            return Some(i);
        }
    }
    assert(lv.take(labels@.len() as int) =~= lv);
    assert(has_reading@.take(labels@.len() as int) =~= has_reading@);
    proof {
        lemma_first_cpu_sensor_by_label(lv, has_reading@);
        assert forall|j: int| 0 <= j < labels@.len() implies lv[j] == (#[trigger] labels@[j])@ by {}
    }
    if labels.len() > 0 && has_reading[0] {
        Some(0)
    } else {
        None
    }
}

/// The levels at which scripts may log.
#[derive(Clone, Copy, Debug, PartialEq, Eq)]
pub enum LogLevel {
    Debug,
    Info,
    Warn,
    Error,
}

/// The level named by a lower-cased level name; "info" for an unknown one.
pub open spec fn level_of(l: Seq<char>) -> LogLevel {
    if l == "debug"@ {
        LogLevel::Debug
    } else if l == "warn"@ {
        LogLevel::Warn
    } else if l == "error"@ {
        LogLevel::Error
    } else {
        LogLevel::Info
    }
}

/// The level a script's log call asks for, by its name in any case.
pub fn script_log_level(level: &str) -> (r: LogLevel)
    ensures
        r == level_of(lowercase_of(level@)),
{
    let chars = chars_of(level);
    let l = to_lowercase(&chars);
    if chars_equal(&l, &chars_of("debug")) {
        LogLevel::Debug
    } else if chars_equal(&l, &chars_of("warn")) {
        LogLevel::Warn
    } else if chars_equal(&l, &chars_of("error")) {
        LogLevel::Error
    } else {
        LogLevel::Info
    }
}

} // verus!
