//! The ARC paper traces by name: where each lies, and at which capacities it is
//! commonly evaluated.
//!
//! The trace `spc1likeread` is split over several compressed files, which the
//! reader does not join, so it has no preset.

use vstd::prelude::*;

use crate::text::{law_trim_again, law_trim_lowered, lower_chars, lowered, spells, trim, trimmed};

verus! {

/// A trace and the capacities at which it is commonly evaluated.
pub struct ArcPreset {
    pub trace_path: &'static str,
    pub default_capacities: Vec<usize>,
}

/// The two parts of a preset.
#[verifier::ext_equal]
pub struct Preset {
    pub trace_path: Seq<char>,
    pub default_capacities: Seq<usize>,
}

impl View for ArcPreset {
    type V = Preset;

    open spec fn view(&self) -> Preset {
        Preset { trace_path: self.trace_path@, default_capacities: self.default_capacities@ }
    }
}

pub open spec fn entry(trace_path: Seq<char>, default_capacities: Seq<usize>) -> Option<Preset> {
    Some(Preset { trace_path, default_capacities })
}

/// The table of presets, by the name in small letters.
pub open spec fn table(key: Seq<char>) -> Option<Preset> {
    if key == "concat"@ {
        entry("external/mokabench/cache-trace/arc/ConCat.lis.zst"@, seq![200_000usize, 400_000, 3_200_000])
    } else if key == "ds1"@ {
        entry("external/mokabench/cache-trace/arc/DS1.lis.zst"@, seq![1_000_000usize, 4_000_000, 8_000_000])
    } else if key == "merge-p"@ || key == "mergep"@ {
        entry("external/mokabench/cache-trace/arc/MergeP.lis.zst"@, seq![400_000usize, 1_000_000, 3_200_000])
    } else if key == "merge-s"@ || key == "merges"@ {
        entry("external/mokabench/cache-trace/arc/MergeS.lis.zst"@, seq![400_000usize, 1_000_000, 3_200_000])
    } else if key == "oltp"@ {
        entry("external/mokabench/cache-trace/arc/OLTP.lis.zst"@, seq![256usize, 512, 1_000, 2_000])
    } else if key == "p1"@ {
        entry("external/mokabench/cache-trace/arc/P1.lis.zst"@, seq![20_000usize, 160_000])
    } else if key == "p2"@ {
        entry("external/mokabench/cache-trace/arc/P2.lis.zst"@, seq![20_000usize, 160_000])
    } else if key == "p3"@ {
        entry("external/mokabench/cache-trace/arc/P3.lis.zst"@, seq![20_000usize, 160_000])
    } else if key == "p4"@ {
        entry("external/mokabench/cache-trace/arc/P4.lis.zst"@, seq![20_000usize, 160_000])
    } else if key == "p5"@ {
        entry("external/mokabench/cache-trace/arc/P5.lis.zst"@, seq![20_000usize, 160_000])
    } else if key == "p6"@ {
        entry("external/mokabench/cache-trace/arc/P6.lis.zst"@, seq![20_000usize, 160_000])
    } else if key == "p7"@ {
        entry("external/mokabench/cache-trace/arc/P7.lis.zst"@, seq![20_000usize, 160_000])
    } else if key == "p8"@ {
        entry("external/mokabench/cache-trace/arc/P8.lis.zst"@, seq![20_000usize, 160_000])
    } else if key == "p9"@ {
        entry("external/mokabench/cache-trace/arc/P9.lis.zst"@, seq![20_000usize, 160_000])
    } else if key == "p10"@ {
        entry("external/mokabench/cache-trace/arc/P10.lis.zst"@, seq![20_000usize, 160_000])
    } else if key == "p11"@ {
        entry("external/mokabench/cache-trace/arc/P11.lis.zst"@, seq![20_000usize, 160_000])
    } else if key == "p12"@ {
        entry("external/mokabench/cache-trace/arc/P12.lis.zst"@, seq![20_000usize, 160_000])
    } else if key == "p13"@ {
        entry("external/mokabench/cache-trace/arc/P13.lis.zst"@, seq![20_000usize, 160_000])
    } else if key == "p14"@ {
        entry("external/mokabench/cache-trace/arc/P14.lis.zst"@, seq![80_000usize, 640_000])
    } else if key == "s1"@ {
        entry("external/mokabench/cache-trace/arc/S1.lis.zst"@, seq![100_000usize, 800_000])
    } else if key == "s2"@ {
        entry("external/mokabench/cache-trace/arc/S2.lis.zst"@, seq![100_000usize, 800_000])
    } else if key == "s3"@ {
        entry("external/mokabench/cache-trace/arc/S3.lis.zst"@, seq![100_000usize, 400_000, 800_000])
    } else {
        None
    }
}

/// The preset that a name stands for: letter case and white space around the
/// name make no difference.
pub open spec fn preset_of(name: Seq<char>) -> Option<Preset> {
    table(lowered(trimmed(name)))
}

fn preset(trace_path: &'static str, default_capacities: Vec<usize>) -> (p: Option<ArcPreset>)
    ensures
        p matches Some(q) && q@ == (Preset { trace_path: trace_path@, default_capacities: default_capacities@ }),
{
    Some(ArcPreset { trace_path, default_capacities })
}

/// The preset that `name` stands for, or `None` for an unknown name.
#[verifier::spinoff_prover]
pub fn lookup(name: &str) -> (r: Option<ArcPreset>)
    ensures
        match r {
            Some(p) => preset_of(name@) == Some(p@),
            None => preset_of(name@) is None,
        },
{
    let key = lower_chars(trim(name));
    if spells(&key, "concat") {
        preset("external/mokabench/cache-trace/arc/ConCat.lis.zst", vec![200_000, 400_000, 3_200_000])
    } else if spells(&key, "ds1") {
        preset("external/mokabench/cache-trace/arc/DS1.lis.zst", vec![1_000_000, 4_000_000, 8_000_000])
    } else if spells(&key, "merge-p") || spells(&key, "mergep") {
        preset("external/mokabench/cache-trace/arc/MergeP.lis.zst", vec![400_000, 1_000_000, 3_200_000])
    } else if spells(&key, "merge-s") || spells(&key, "merges") {
        preset("external/mokabench/cache-trace/arc/MergeS.lis.zst", vec![400_000, 1_000_000, 3_200_000])
    } else if spells(&key, "oltp") {
        preset("external/mokabench/cache-trace/arc/OLTP.lis.zst", vec![256, 512, 1_000, 2_000])
    } else if spells(&key, "p1") {
        preset("external/mokabench/cache-trace/arc/P1.lis.zst", vec![20_000, 160_000])
    } else if spells(&key, "p2") {
        preset("external/mokabench/cache-trace/arc/P2.lis.zst", vec![20_000, 160_000])
    } else if spells(&key, "p3") {
        preset("external/mokabench/cache-trace/arc/P3.lis.zst", vec![20_000, 160_000])
    } else if spells(&key, "p4") {
        preset("external/mokabench/cache-trace/arc/P4.lis.zst", vec![20_000, 160_000])
    } else if spells(&key, "p5") {
        preset("external/mokabench/cache-trace/arc/P5.lis.zst", vec![20_000, 160_000])
    } else if spells(&key, "p6") {
        preset("external/mokabench/cache-trace/arc/P6.lis.zst", vec![20_000, 160_000])
    } else if spells(&key, "p7") {
        preset("external/mokabench/cache-trace/arc/P7.lis.zst", vec![20_000, 160_000])
    } else if spells(&key, "p8") {
        preset("external/mokabench/cache-trace/arc/P8.lis.zst", vec![20_000, 160_000])
    } else if spells(&key, "p9") {
        preset("external/mokabench/cache-trace/arc/P9.lis.zst", vec![20_000, 160_000])
    } else if spells(&key, "p10") {
        preset("external/mokabench/cache-trace/arc/P10.lis.zst", vec![20_000, 160_000])
    } else if spells(&key, "p11") {
        preset("external/mokabench/cache-trace/arc/P11.lis.zst", vec![20_000, 160_000])
    } else if spells(&key, "p12") {
        preset("external/mokabench/cache-trace/arc/P12.lis.zst", vec![20_000, 160_000])
    } else if spells(&key, "p13") {
        preset("external/mokabench/cache-trace/arc/P13.lis.zst", vec![20_000, 160_000])
    } else if spells(&key, "p14") {
        preset("external/mokabench/cache-trace/arc/P14.lis.zst", vec![80_000, 640_000])
    } else if spells(&key, "s1") {
        preset("external/mokabench/cache-trace/arc/S1.lis.zst", vec![100_000, 800_000])
    } else if spells(&key, "s2") {
        preset("external/mokabench/cache-trace/arc/S2.lis.zst", vec![100_000, 800_000])
    } else if spells(&key, "s3") {
        preset("external/mokabench/cache-trace/arc/S3.lis.zst", vec![100_000, 400_000, 800_000])
    } else {
        None
    }
}

/// A name means the same whatever the case of its letters.
pub proof fn law_case_insensitive(a: Seq<char>, b: Seq<char>)
    requires
        lowered(a) == lowered(b),
    ensures
        preset_of(a) == preset_of(b),
{
    law_trim_lowered(a);
    law_trim_lowered(b);
}

/// White space around a name makes no difference.
pub proof fn law_white_space_around(name: Seq<char>)
    ensures
        preset_of(trimmed(name)) == preset_of(name),
{
    law_trim_again(name);
}

/// Where the ARC traces lie.
pub open spec fn in_trace_dir(path: Seq<char>) -> bool {
    let front = "external/mokabench/cache-trace/arc/"@;
    let back = ".lis.zst"@;
    &&& path.len() > front.len() + back.len()
    &&& path.take(front.len() as int) == front
    &&& path.skip(path.len() - back.len()) == back
}

proof fn lemma_in_trace_dir(path: Seq<char>)
    requires
        path.len() > 43,
        path[0] == 'e',
        path[1] == 'x',
        path[2] == 't',
        path[3] == 'e',
        path[4] == 'r',
        path[5] == 'n',
        path[6] == 'a',
        path[7] == 'l',
        path[8] == '/',
        path[9] == 'm',
        path[10] == 'o',
        path[11] == 'k',
        path[12] == 'a',
        path[13] == 'b',
        path[14] == 'e',
        path[15] == 'n',
        path[16] == 'c',
        path[17] == 'h',
        path[18] == '/',
        path[19] == 'c',
        path[20] == 'a',
        path[21] == 'c',
        path[22] == 'h',
        path[23] == 'e',
        path[24] == '-',
        path[25] == 't',
        path[26] == 'r',
        path[27] == 'a',
        path[28] == 'c',
        path[29] == 'e',
        path[30] == '/',
        path[31] == 'a',
        path[32] == 'r',
        path[33] == 'c',
        path[34] == '/',
        path[path.len() - 8] == '.',
        path[path.len() - 7] == 'l',
        path[path.len() - 6] == 'i',
        path[path.len() - 5] == 's',
        path[path.len() - 4] == '.',
        path[path.len() - 3] == 'z',
        path[path.len() - 2] == 's',
        path[path.len() - 1] == 't',
    ensures
        in_trace_dir(path),
{
    reveal_strlit("external/mokabench/cache-trace/arc/");
    reveal_strlit(".lis.zst");
    assert(path.take(35) =~= "external/mokabench/cache-trace/arc/"@);
    assert(path.skip(path.len() - 8) =~= ".lis.zst"@);
}

/// Each preset names a compressed trace among the ARC traces and at least one capacity;
/// its capacities are positive and rise.
#[verifier::spinoff_prover]
pub proof fn law_presets(name: Seq<char>)
    requires
        preset_of(name) is Some,
    ensures
        in_trace_dir(preset_of(name)->0.trace_path),
        preset_of(name)->0.default_capacities.len() > 0,
        preset_of(name)->0.default_capacities[0] > 0,
        forall|i: int, j: int|
            0 <= i < j < preset_of(name)->0.default_capacities.len()
                ==> preset_of(name)->0.default_capacities[i]
                < preset_of(name)->0.default_capacities[j],
{
    assert(in_trace_dir("external/mokabench/cache-trace/arc/ConCat.lis.zst"@)) by {
        reveal_strlit("external/mokabench/cache-trace/arc/ConCat.lis.zst");
        lemma_in_trace_dir("external/mokabench/cache-trace/arc/ConCat.lis.zst"@);
    }
    assert(in_trace_dir("external/mokabench/cache-trace/arc/DS1.lis.zst"@)) by {
        reveal_strlit("external/mokabench/cache-trace/arc/DS1.lis.zst");
        lemma_in_trace_dir("external/mokabench/cache-trace/arc/DS1.lis.zst"@);
    }
    assert(in_trace_dir("external/mokabench/cache-trace/arc/MergeP.lis.zst"@)) by {
        reveal_strlit("external/mokabench/cache-trace/arc/MergeP.lis.zst");
        lemma_in_trace_dir("external/mokabench/cache-trace/arc/MergeP.lis.zst"@);
    }
    assert(in_trace_dir("external/mokabench/cache-trace/arc/MergeS.lis.zst"@)) by {
        reveal_strlit("external/mokabench/cache-trace/arc/MergeS.lis.zst");
        lemma_in_trace_dir("external/mokabench/cache-trace/arc/MergeS.lis.zst"@);
    }
    assert(in_trace_dir("external/mokabench/cache-trace/arc/OLTP.lis.zst"@)) by {
        reveal_strlit("external/mokabench/cache-trace/arc/OLTP.lis.zst");
        lemma_in_trace_dir("external/mokabench/cache-trace/arc/OLTP.lis.zst"@);
    }
    assert(in_trace_dir("external/mokabench/cache-trace/arc/P1.lis.zst"@)) by {
        reveal_strlit("external/mokabench/cache-trace/arc/P1.lis.zst");
        lemma_in_trace_dir("external/mokabench/cache-trace/arc/P1.lis.zst"@);
    }
    assert(in_trace_dir("external/mokabench/cache-trace/arc/P2.lis.zst"@)) by {
        reveal_strlit("external/mokabench/cache-trace/arc/P2.lis.zst");
        lemma_in_trace_dir("external/mokabench/cache-trace/arc/P2.lis.zst"@);
    }
    assert(in_trace_dir("external/mokabench/cache-trace/arc/P3.lis.zst"@)) by {
        reveal_strlit("external/mokabench/cache-trace/arc/P3.lis.zst");
        lemma_in_trace_dir("external/mokabench/cache-trace/arc/P3.lis.zst"@);
    }
    assert(in_trace_dir("external/mokabench/cache-trace/arc/P4.lis.zst"@)) by {
        reveal_strlit("external/mokabench/cache-trace/arc/P4.lis.zst");
        lemma_in_trace_dir("external/mokabench/cache-trace/arc/P4.lis.zst"@);
    }
    assert(in_trace_dir("external/mokabench/cache-trace/arc/P5.lis.zst"@)) by {
        reveal_strlit("external/mokabench/cache-trace/arc/P5.lis.zst");
        lemma_in_trace_dir("external/mokabench/cache-trace/arc/P5.lis.zst"@);
    }
    assert(in_trace_dir("external/mokabench/cache-trace/arc/P6.lis.zst"@)) by {
        reveal_strlit("external/mokabench/cache-trace/arc/P6.lis.zst");
        lemma_in_trace_dir("external/mokabench/cache-trace/arc/P6.lis.zst"@);
    }
    assert(in_trace_dir("external/mokabench/cache-trace/arc/P7.lis.zst"@)) by {
        reveal_strlit("external/mokabench/cache-trace/arc/P7.lis.zst");
        lemma_in_trace_dir("external/mokabench/cache-trace/arc/P7.lis.zst"@);
    }
    assert(in_trace_dir("external/mokabench/cache-trace/arc/P8.lis.zst"@)) by {
        reveal_strlit("external/mokabench/cache-trace/arc/P8.lis.zst");
        lemma_in_trace_dir("external/mokabench/cache-trace/arc/P8.lis.zst"@);
    }
    assert(in_trace_dir("external/mokabench/cache-trace/arc/P9.lis.zst"@)) by {
        reveal_strlit("external/mokabench/cache-trace/arc/P9.lis.zst");
        lemma_in_trace_dir("external/mokabench/cache-trace/arc/P9.lis.zst"@);
    }
    assert(in_trace_dir("external/mokabench/cache-trace/arc/P10.lis.zst"@)) by {
        reveal_strlit("external/mokabench/cache-trace/arc/P10.lis.zst");
        lemma_in_trace_dir("external/mokabench/cache-trace/arc/P10.lis.zst"@);
    }
    assert(in_trace_dir("external/mokabench/cache-trace/arc/P11.lis.zst"@)) by {
        reveal_strlit("external/mokabench/cache-trace/arc/P11.lis.zst");
        lemma_in_trace_dir("external/mokabench/cache-trace/arc/P11.lis.zst"@);
    }
    assert(in_trace_dir("external/mokabench/cache-trace/arc/P12.lis.zst"@)) by {
        reveal_strlit("external/mokabench/cache-trace/arc/P12.lis.zst");
        lemma_in_trace_dir("external/mokabench/cache-trace/arc/P12.lis.zst"@);
    }
    assert(in_trace_dir("external/mokabench/cache-trace/arc/P13.lis.zst"@)) by {
        reveal_strlit("external/mokabench/cache-trace/arc/P13.lis.zst");
        lemma_in_trace_dir("external/mokabench/cache-trace/arc/P13.lis.zst"@);
    }
    assert(in_trace_dir("external/mokabench/cache-trace/arc/P14.lis.zst"@)) by {
        reveal_strlit("external/mokabench/cache-trace/arc/P14.lis.zst");
        lemma_in_trace_dir("external/mokabench/cache-trace/arc/P14.lis.zst"@);
    }
    assert(in_trace_dir("external/mokabench/cache-trace/arc/S1.lis.zst"@)) by {
        reveal_strlit("external/mokabench/cache-trace/arc/S1.lis.zst");
        lemma_in_trace_dir("external/mokabench/cache-trace/arc/S1.lis.zst"@);
    }
    assert(in_trace_dir("external/mokabench/cache-trace/arc/S2.lis.zst"@)) by {
        reveal_strlit("external/mokabench/cache-trace/arc/S2.lis.zst");
        lemma_in_trace_dir("external/mokabench/cache-trace/arc/S2.lis.zst"@);
    }
    assert(in_trace_dir("external/mokabench/cache-trace/arc/S3.lis.zst"@)) by {
        reveal_strlit("external/mokabench/cache-trace/arc/S3.lis.zst");
        lemma_in_trace_dir("external/mokabench/cache-trace/arc/S3.lis.zst"@);
    }
}

/// What tells the paths of two traces apart: the length and a few of the letters.
spec fn mark(path: Seq<char>) -> (nat, char, char, char, char) {
    (path.len(), path[35], path[36], path[37], path[40])
}

#[verifier::spinoff_prover]
proof fn lemma_marks()
    ensures
        mark("external/mokabench/cache-trace/arc/ConCat.lis.zst"@) == (49nat, 'C', 'o', 'n', 't'),
        mark("external/mokabench/cache-trace/arc/DS1.lis.zst"@) == (46nat, 'D', 'S', '1', 'i'),
        mark("external/mokabench/cache-trace/arc/MergeP.lis.zst"@) == (49nat, 'M', 'e', 'r', 'P'),
        mark("external/mokabench/cache-trace/arc/MergeS.lis.zst"@) == (49nat, 'M', 'e', 'r', 'S'),
        mark("external/mokabench/cache-trace/arc/OLTP.lis.zst"@) == (47nat, 'O', 'L', 'T', 'l'),
        mark("external/mokabench/cache-trace/arc/P1.lis.zst"@) == (45nat, 'P', '1', '.', 's'),
        mark("external/mokabench/cache-trace/arc/P2.lis.zst"@) == (45nat, 'P', '2', '.', 's'),
        mark("external/mokabench/cache-trace/arc/P3.lis.zst"@) == (45nat, 'P', '3', '.', 's'),
        mark("external/mokabench/cache-trace/arc/P4.lis.zst"@) == (45nat, 'P', '4', '.', 's'),
        mark("external/mokabench/cache-trace/arc/P5.lis.zst"@) == (45nat, 'P', '5', '.', 's'),
        mark("external/mokabench/cache-trace/arc/P6.lis.zst"@) == (45nat, 'P', '6', '.', 's'),
        mark("external/mokabench/cache-trace/arc/P7.lis.zst"@) == (45nat, 'P', '7', '.', 's'),
        mark("external/mokabench/cache-trace/arc/P8.lis.zst"@) == (45nat, 'P', '8', '.', 's'),
        mark("external/mokabench/cache-trace/arc/P9.lis.zst"@) == (45nat, 'P', '9', '.', 's'),
        mark("external/mokabench/cache-trace/arc/P10.lis.zst"@) == (46nat, 'P', '1', '0', 'i'),
        mark("external/mokabench/cache-trace/arc/P11.lis.zst"@) == (46nat, 'P', '1', '1', 'i'),
        mark("external/mokabench/cache-trace/arc/P12.lis.zst"@) == (46nat, 'P', '1', '2', 'i'),
        mark("external/mokabench/cache-trace/arc/P13.lis.zst"@) == (46nat, 'P', '1', '3', 'i'),
        mark("external/mokabench/cache-trace/arc/P14.lis.zst"@) == (46nat, 'P', '1', '4', 'i'),
        mark("external/mokabench/cache-trace/arc/S1.lis.zst"@) == (45nat, 'S', '1', '.', 's'),
        mark("external/mokabench/cache-trace/arc/S2.lis.zst"@) == (45nat, 'S', '2', '.', 's'),
        mark("external/mokabench/cache-trace/arc/S3.lis.zst"@) == (45nat, 'S', '3', '.', 's'),
{
    reveal_strlit("external/mokabench/cache-trace/arc/ConCat.lis.zst");
    reveal_strlit("external/mokabench/cache-trace/arc/DS1.lis.zst");
    reveal_strlit("external/mokabench/cache-trace/arc/MergeP.lis.zst");
    reveal_strlit("external/mokabench/cache-trace/arc/MergeS.lis.zst");
    reveal_strlit("external/mokabench/cache-trace/arc/OLTP.lis.zst");
    reveal_strlit("external/mokabench/cache-trace/arc/P1.lis.zst");
    reveal_strlit("external/mokabench/cache-trace/arc/P2.lis.zst");
    reveal_strlit("external/mokabench/cache-trace/arc/P3.lis.zst");
    reveal_strlit("external/mokabench/cache-trace/arc/P4.lis.zst");
    reveal_strlit("external/mokabench/cache-trace/arc/P5.lis.zst");
    reveal_strlit("external/mokabench/cache-trace/arc/P6.lis.zst");
    reveal_strlit("external/mokabench/cache-trace/arc/P7.lis.zst");
    reveal_strlit("external/mokabench/cache-trace/arc/P8.lis.zst");
    reveal_strlit("external/mokabench/cache-trace/arc/P9.lis.zst");
    reveal_strlit("external/mokabench/cache-trace/arc/P10.lis.zst");
    reveal_strlit("external/mokabench/cache-trace/arc/P11.lis.zst");
    reveal_strlit("external/mokabench/cache-trace/arc/P12.lis.zst");
    reveal_strlit("external/mokabench/cache-trace/arc/P13.lis.zst");
    reveal_strlit("external/mokabench/cache-trace/arc/P14.lis.zst");
    reveal_strlit("external/mokabench/cache-trace/arc/S1.lis.zst");
    reveal_strlit("external/mokabench/cache-trace/arc/S2.lis.zst");
    reveal_strlit("external/mokabench/cache-trace/arc/S3.lis.zst");
}

/// Two names with one trace stand for one preset.
#[verifier::spinoff_prover]
pub proof fn law_distinct_paths(a: Seq<char>, b: Seq<char>)
    requires
        preset_of(a) is Some,
        preset_of(b) is Some,
        preset_of(a)->0.trace_path == preset_of(b)->0.trace_path,
    ensures
        preset_of(a) == preset_of(b),
{
    lemma_marks();
    assert(mark(preset_of(a)->0.trace_path) == mark(preset_of(b)->0.trace_path));
}

/// The name of the file of a trace, without the directory and the endings, in small letters.
pub open spec fn stem(path: Seq<char>) -> Seq<char> {
    lowered(path.subrange(35, path.len() - 8))
}

/// A name in small letters without white space around it.
pub open spec fn spelled(name: Seq<char>) -> Seq<char> {
    lowered(trimmed(name))
}

/// The preset of a name lies in the file of that name: the file is called as the preset is,
/// but for the hyphen that some names have.
#[verifier::spinoff_prover]
pub proof fn law_file_of_the_name(name: Seq<char>)
    requires
        preset_of(name) is Some,
    ensures
        stem(preset_of(name)->0.trace_path) == spelled(name) || exists|h: int|
            0 <= h < spelled(name).len() && #[trigger] spelled(name)[h] == '-' && spelled(
                name,
            ).remove(h) == stem(preset_of(name)->0.trace_path),
{
    assert(stem("external/mokabench/cache-trace/arc/ConCat.lis.zst"@) == "concat"@) by {
        reveal_strlit("external/mokabench/cache-trace/arc/ConCat.lis.zst");
        reveal_strlit("concat");
        assert(stem("external/mokabench/cache-trace/arc/ConCat.lis.zst"@) =~= "concat"@);
    }
    assert(stem("external/mokabench/cache-trace/arc/DS1.lis.zst"@) == "ds1"@) by {
        reveal_strlit("external/mokabench/cache-trace/arc/DS1.lis.zst");
        reveal_strlit("ds1");
        assert(stem("external/mokabench/cache-trace/arc/DS1.lis.zst"@) =~= "ds1"@);
    }
    assert(stem("external/mokabench/cache-trace/arc/MergeP.lis.zst"@) == "mergep"@) by {
        reveal_strlit("external/mokabench/cache-trace/arc/MergeP.lis.zst");
        reveal_strlit("mergep");
        assert(stem("external/mokabench/cache-trace/arc/MergeP.lis.zst"@) =~= "mergep"@);
    }
    assert(stem("external/mokabench/cache-trace/arc/MergeS.lis.zst"@) == "merges"@) by {
        reveal_strlit("external/mokabench/cache-trace/arc/MergeS.lis.zst");
        reveal_strlit("merges");
        assert(stem("external/mokabench/cache-trace/arc/MergeS.lis.zst"@) =~= "merges"@);
    }
    assert(stem("external/mokabench/cache-trace/arc/OLTP.lis.zst"@) == "oltp"@) by {
        reveal_strlit("external/mokabench/cache-trace/arc/OLTP.lis.zst");
        reveal_strlit("oltp");
        assert(stem("external/mokabench/cache-trace/arc/OLTP.lis.zst"@) =~= "oltp"@);
    }
    assert(stem("external/mokabench/cache-trace/arc/P1.lis.zst"@) == "p1"@) by {
        reveal_strlit("external/mokabench/cache-trace/arc/P1.lis.zst");
        reveal_strlit("p1");
        assert(stem("external/mokabench/cache-trace/arc/P1.lis.zst"@) =~= "p1"@);
    }
    assert(stem("external/mokabench/cache-trace/arc/P2.lis.zst"@) == "p2"@) by {
        reveal_strlit("external/mokabench/cache-trace/arc/P2.lis.zst");
        reveal_strlit("p2");
        assert(stem("external/mokabench/cache-trace/arc/P2.lis.zst"@) =~= "p2"@);
    }
    assert(stem("external/mokabench/cache-trace/arc/P3.lis.zst"@) == "p3"@) by {
        reveal_strlit("external/mokabench/cache-trace/arc/P3.lis.zst");
        reveal_strlit("p3");
        assert(stem("external/mokabench/cache-trace/arc/P3.lis.zst"@) =~= "p3"@);
    }
    assert(stem("external/mokabench/cache-trace/arc/P4.lis.zst"@) == "p4"@) by {
        reveal_strlit("external/mokabench/cache-trace/arc/P4.lis.zst");
        reveal_strlit("p4");
        assert(stem("external/mokabench/cache-trace/arc/P4.lis.zst"@) =~= "p4"@);
    }
    assert(stem("external/mokabench/cache-trace/arc/P5.lis.zst"@) == "p5"@) by {
        reveal_strlit("external/mokabench/cache-trace/arc/P5.lis.zst");
        reveal_strlit("p5");
        assert(stem("external/mokabench/cache-trace/arc/P5.lis.zst"@) =~= "p5"@);
    }
    assert(stem("external/mokabench/cache-trace/arc/P6.lis.zst"@) == "p6"@) by {
        reveal_strlit("external/mokabench/cache-trace/arc/P6.lis.zst");
        reveal_strlit("p6");
        assert(stem("external/mokabench/cache-trace/arc/P6.lis.zst"@) =~= "p6"@);
    }
    assert(stem("external/mokabench/cache-trace/arc/P7.lis.zst"@) == "p7"@) by {
        reveal_strlit("external/mokabench/cache-trace/arc/P7.lis.zst");
        reveal_strlit("p7");
        assert(stem("external/mokabench/cache-trace/arc/P7.lis.zst"@) =~= "p7"@);
    }
    assert(stem("external/mokabench/cache-trace/arc/P8.lis.zst"@) == "p8"@) by {
        reveal_strlit("external/mokabench/cache-trace/arc/P8.lis.zst");
        reveal_strlit("p8");
        assert(stem("external/mokabench/cache-trace/arc/P8.lis.zst"@) =~= "p8"@);
    }
    assert(stem("external/mokabench/cache-trace/arc/P9.lis.zst"@) == "p9"@) by {
        reveal_strlit("external/mokabench/cache-trace/arc/P9.lis.zst");
        reveal_strlit("p9");
        assert(stem("external/mokabench/cache-trace/arc/P9.lis.zst"@) =~= "p9"@);
    }
    assert(stem("external/mokabench/cache-trace/arc/P10.lis.zst"@) == "p10"@) by {
        reveal_strlit("external/mokabench/cache-trace/arc/P10.lis.zst");
        reveal_strlit("p10");
        assert(stem("external/mokabench/cache-trace/arc/P10.lis.zst"@) =~= "p10"@);
    }
    assert(stem("external/mokabench/cache-trace/arc/P11.lis.zst"@) == "p11"@) by {
        reveal_strlit("external/mokabench/cache-trace/arc/P11.lis.zst");
        reveal_strlit("p11");
        assert(stem("external/mokabench/cache-trace/arc/P11.lis.zst"@) =~= "p11"@);
    }
    assert(stem("external/mokabench/cache-trace/arc/P12.lis.zst"@) == "p12"@) by {
        reveal_strlit("external/mokabench/cache-trace/arc/P12.lis.zst");
        reveal_strlit("p12");
        assert(stem("external/mokabench/cache-trace/arc/P12.lis.zst"@) =~= "p12"@);
    }
    assert(stem("external/mokabench/cache-trace/arc/P13.lis.zst"@) == "p13"@) by {
        reveal_strlit("external/mokabench/cache-trace/arc/P13.lis.zst");
        reveal_strlit("p13");
        assert(stem("external/mokabench/cache-trace/arc/P13.lis.zst"@) =~= "p13"@);
    }
    assert(stem("external/mokabench/cache-trace/arc/P14.lis.zst"@) == "p14"@) by {
        reveal_strlit("external/mokabench/cache-trace/arc/P14.lis.zst");
        reveal_strlit("p14");
        assert(stem("external/mokabench/cache-trace/arc/P14.lis.zst"@) =~= "p14"@);
    }
    assert(stem("external/mokabench/cache-trace/arc/S1.lis.zst"@) == "s1"@) by {
        reveal_strlit("external/mokabench/cache-trace/arc/S1.lis.zst");
        reveal_strlit("s1");
        assert(stem("external/mokabench/cache-trace/arc/S1.lis.zst"@) =~= "s1"@);
    }
    assert(stem("external/mokabench/cache-trace/arc/S2.lis.zst"@) == "s2"@) by {
        reveal_strlit("external/mokabench/cache-trace/arc/S2.lis.zst");
        reveal_strlit("s2");
        assert(stem("external/mokabench/cache-trace/arc/S2.lis.zst"@) =~= "s2"@);
    }
    assert(stem("external/mokabench/cache-trace/arc/S3.lis.zst"@) == "s3"@) by {
        reveal_strlit("external/mokabench/cache-trace/arc/S3.lis.zst");
        reveal_strlit("s3");
        assert(stem("external/mokabench/cache-trace/arc/S3.lis.zst"@) =~= "s3"@);
    }
    assert("merge-p"@[5] == '-' && "merge-p"@.len() == 7 && "merge-p"@.remove(5) == "mergep"@) by {
        reveal_strlit("merge-p");
        reveal_strlit("mergep");
        assert("merge-p"@.remove(5) =~= "mergep"@);
    }
    assert("merge-s"@[5] == '-' && "merge-s"@.len() == 7 && "merge-s"@.remove(5) == "merges"@) by {
        reveal_strlit("merge-s");
        reveal_strlit("merges");
        assert("merge-s"@.remove(5) =~= "merges"@);
    }
}

/// These names have presets, and no others.
#[verifier::spinoff_prover]
pub proof fn law_known_names(name: Seq<char>)
    ensures
        preset_of(name) is Some <==> seq![
            "concat"@,
            "ds1"@,
            "merge-p"@,
            "mergep"@,
            "merge-s"@,
            "merges"@,
            "oltp"@,
            "p1"@,
            "p2"@,
            "p3"@,
            "p4"@,
            "p5"@,
            "p6"@,
            "p7"@,
            "p8"@,
            "p9"@,
            "p10"@,
            "p11"@,
            "p12"@,
            "p13"@,
            "p14"@,
            "s1"@,
            "s2"@,
            "s3"@,
        ].contains(spelled(name)),
{
    let all = seq![
        "concat"@,
        "ds1"@,
        "merge-p"@,
        "mergep"@,
        "merge-s"@,
        "merges"@,
        "oltp"@,
        "p1"@,
        "p2"@,
        "p3"@,
        "p4"@,
        "p5"@,
        "p6"@,
        "p7"@,
        "p8"@,
        "p9"@,
        "p10"@,
        "p11"@,
        "p12"@,
        "p13"@,
        "p14"@,
        "s1"@,
        "s2"@,
        "s3"@,
    ];
    let n = spelled(name);
    if preset_of(name) is Some {
        assert(all[0] == "concat"@);
        assert(all[1] == "ds1"@);
        assert(all[2] == "merge-p"@);
        assert(all[3] == "mergep"@);
        assert(all[4] == "merge-s"@);
        assert(all[5] == "merges"@);
        assert(all[6] == "oltp"@);
        assert(all[7] == "p1"@);
        assert(all[8] == "p2"@);
        assert(all[9] == "p3"@);
        assert(all[10] == "p4"@);
        assert(all[11] == "p5"@);
        assert(all[12] == "p6"@);
        assert(all[13] == "p7"@);
        assert(all[14] == "p8"@);
        assert(all[15] == "p9"@);
        assert(all[16] == "p10"@);
        assert(all[17] == "p11"@);
        assert(all[18] == "p12"@);
        assert(all[19] == "p13"@);
        assert(all[20] == "p14"@);
        assert(all[21] == "s1"@);
        assert(all[22] == "s2"@);
        assert(all[23] == "s3"@);
    }
    if all.contains(n) {
        let i = choose|i: int| 0 <= i < 24 && all[i] == n;
        lemma_listed(n, i);
    }
}

proof fn lemma_listed(n: Seq<char>, i: int)
    requires
        0 <= i < 24,
        seq![
            "concat"@,
            "ds1"@,
            "merge-p"@,
            "mergep"@,
            "merge-s"@,
            "merges"@,
            "oltp"@,
            "p1"@,
            "p2"@,
            "p3"@,
            "p4"@,
            "p5"@,
            "p6"@,
            "p7"@,
            "p8"@,
            "p9"@,
            "p10"@,
            "p11"@,
            "p12"@,
            "p13"@,
            "p14"@,
            "s1"@,
            "s2"@,
            "s3"@,
        ][i] == n,
    ensures
        table(n) is Some,
{
}

/// What tells two names apart: the length and a few of the letters.
spec fn name_mark(name: Seq<char>) -> (nat, char, char, char) {
    (name.len(), name[0], name[1], name.last())
}

#[verifier::spinoff_prover]
proof fn lemma_name_marks()
    ensures
        name_mark("concat"@) == (6nat, 'c', 'o', 't'),
        name_mark("ds1"@) == (3nat, 'd', 's', '1'),
        name_mark("merge-p"@) == (7nat, 'm', 'e', 'p'),
        name_mark("mergep"@) == (6nat, 'm', 'e', 'p'),
        name_mark("merge-s"@) == (7nat, 'm', 'e', 's'),
        name_mark("merges"@) == (6nat, 'm', 'e', 's'),
        name_mark("oltp"@) == (4nat, 'o', 'l', 'p'),
        name_mark("p1"@) == (2nat, 'p', '1', '1'),
        name_mark("p2"@) == (2nat, 'p', '2', '2'),
        name_mark("p3"@) == (2nat, 'p', '3', '3'),
        name_mark("p4"@) == (2nat, 'p', '4', '4'),
        name_mark("p5"@) == (2nat, 'p', '5', '5'),
        name_mark("p6"@) == (2nat, 'p', '6', '6'),
        name_mark("p7"@) == (2nat, 'p', '7', '7'),
        name_mark("p8"@) == (2nat, 'p', '8', '8'),
        name_mark("p9"@) == (2nat, 'p', '9', '9'),
        name_mark("p10"@) == (3nat, 'p', '1', '0'),
        name_mark("p11"@) == (3nat, 'p', '1', '1'),
        name_mark("p12"@) == (3nat, 'p', '1', '2'),
        name_mark("p13"@) == (3nat, 'p', '1', '3'),
        name_mark("p14"@) == (3nat, 'p', '1', '4'),
        name_mark("s1"@) == (2nat, 's', '1', '1'),
        name_mark("s2"@) == (2nat, 's', '2', '2'),
        name_mark("s3"@) == (2nat, 's', '3', '3'),
{
    reveal_strlit("concat");
    reveal_strlit("ds1");
    reveal_strlit("merge-p");
    reveal_strlit("mergep");
    reveal_strlit("merge-s");
    reveal_strlit("merges");
    reveal_strlit("oltp");
    reveal_strlit("p1");
    reveal_strlit("p2");
    reveal_strlit("p3");
    reveal_strlit("p4");
    reveal_strlit("p5");
    reveal_strlit("p6");
    reveal_strlit("p7");
    reveal_strlit("p8");
    reveal_strlit("p9");
    reveal_strlit("p10");
    reveal_strlit("p11");
    reveal_strlit("p12");
    reveal_strlit("p13");
    reveal_strlit("p14");
    reveal_strlit("s1");
    reveal_strlit("s2");
    reveal_strlit("s3");
}

/// The capacities at which the traces are commonly evaluated, by families of traces.
#[verifier::spinoff_prover]
pub proof fn law_capacities(name: Seq<char>)
    ensures
        (spelled(name) == "concat"@)
            ==> preset_of(name) is Some && preset_of(name)->0.default_capacities == seq![200_000usize, 400_000, 3_200_000],
        (spelled(name) == "ds1"@)
            ==> preset_of(name) is Some && preset_of(name)->0.default_capacities == seq![1_000_000usize, 4_000_000, 8_000_000],
        (spelled(name) == "merge-p"@
            || spelled(name) == "mergep"@
            || spelled(name) == "merge-s"@
            || spelled(name) == "merges"@)
            ==> preset_of(name) is Some && preset_of(name)->0.default_capacities == seq![400_000usize, 1_000_000, 3_200_000],
        (spelled(name) == "oltp"@)
            ==> preset_of(name) is Some && preset_of(name)->0.default_capacities == seq![256usize, 512, 1_000, 2_000],
        (spelled(name) == "p1"@
            || spelled(name) == "p2"@
            || spelled(name) == "p3"@
            || spelled(name) == "p4"@
            || spelled(name) == "p5"@
            || spelled(name) == "p6"@
            || spelled(name) == "p7"@
            || spelled(name) == "p8"@
            || spelled(name) == "p9"@
            || spelled(name) == "p10"@
            || spelled(name) == "p11"@
            || spelled(name) == "p12"@
            || spelled(name) == "p13"@)
            ==> preset_of(name) is Some && preset_of(name)->0.default_capacities == seq![20_000usize, 160_000],
        (spelled(name) == "p14"@)
            ==> preset_of(name) is Some && preset_of(name)->0.default_capacities == seq![80_000usize, 640_000],
        (spelled(name) == "s1"@
            || spelled(name) == "s2"@)
            ==> preset_of(name) is Some && preset_of(name)->0.default_capacities == seq![100_000usize, 800_000],
        (spelled(name) == "s3"@)
            ==> preset_of(name) is Some && preset_of(name)->0.default_capacities == seq![100_000usize, 400_000, 800_000],
{
    lemma_name_marks();
    let n = spelled(name);
    assert(name_mark(n) == name_mark(n));
}

} // verus!
