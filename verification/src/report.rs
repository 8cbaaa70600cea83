use vstd::prelude::*;
use vstd::string::*;

verus! {

/// What came of checking one `.ui` file.
pub enum FileOutcome {
    /// The file could not be read.
    ReadFailed,
    /// The file does not parse as TOML.
    LoadFailed,
    /// The JSON schema validator rejected the file; it exited with the code
    /// it holds, where it exited with one at all.
    SchemaRejected(Option<i32>),
    /// The semantic checks ran and found this many errors.
    Checked(usize),
}

/// The exit code after a file with `outcome`, where it was `current`
/// before: a rejected file sets the validator's code (1 where it had
/// none); a file that could not be read or loaded, or that has semantic
/// errors, sets 1; a file without errors keeps the code.
pub open spec fn exit_code_after(current: i32, outcome: FileOutcome) -> i32 {
    match outcome {
        FileOutcome::ReadFailed => 1,
        FileOutcome::LoadFailed => 1,
        FileOutcome::SchemaRejected(code) => match code {
            Some(c) => c,
            None => 1,
        },
        FileOutcome::Checked(n) => if n > 0 {
            1
        } else {
            current
        },
    }
}

/// The exit code after a file with `outcome`.
pub fn next_exit_code(current: i32, outcome: &FileOutcome) -> (r: i32)
    ensures
        r == exit_code_after(current, *outcome),
{
    match outcome {
        FileOutcome::ReadFailed => 1,
        FileOutcome::LoadFailed => 1,
        FileOutcome::SchemaRejected(code) => match code {
            Some(c) => *c,
            None => 1,
        },
        FileOutcome::Checked(n) => if *n > 0 {
            1
        } else {
            current
        },
    }
}

/// The lines written for the semantic checks of `file`: a heading and one
/// line per error where there are errors; else an `OK` line where
/// `verbose` is at least 2; else none.
pub open spec fn report_lines(file: Seq<char>, errors: Seq<Seq<char>>, verbose: u8) -> Seq<Seq<char>> {
    if errors.len() > 0 {
        seq!["  Semantic errors in "@ + file + ":"@] + errors.map_values(
            |e: Seq<char>| "    - "@ + e,
        )
    } else if verbose >= 2 {
        seq!["  "@ + file + " OK"@]
    } else {
        Seq::empty()
    }
}

/// The lines to write for the semantic checks of `file`.
pub fn semantic_report(file: &str, errors: &Vec<String>, verbose: u8) -> (r: Vec<String>)
    ensures
        r.deep_view() == report_lines(file@, errors.deep_view(), verbose),
{
    let ghost all = errors.deep_view();
    let mut lines: Vec<String> = Vec::new();
    if errors.len() > 0 {
        let mut heading = String::from_str("  Semantic errors in ");
        heading.append(file);
        heading.append(":");
        lines.push(heading);
        let mut k: usize = 0;
        while k < errors.len()
            invariant
                k <= errors@.len(),
                all == errors.deep_view(),
                lines.deep_view() =~= seq!["  Semantic errors in "@ + file@ + ":"@] + all.take(
                    k as int,
                ).map_values(|e: Seq<char>| "    - "@ + e),
            decreases errors.len() - k,
        {
            let ghost before = lines.deep_view();
            let mut line = String::from_str("    - ");
            line.append(errors[k].as_str());
            assert(line@ == "    - "@ + all[k as int]);
            lines.push(line);
            proof {
                assert(lines.deep_view() =~= before.push("    - "@ + all[k as int]));
                assert(all.take(k + 1) =~= all.take(k as int).push(all[k as int]));
                assert(all.take(k + 1).map_values(|e: Seq<char>| "    - "@ + e) =~= all.take(
                    k as int,
                ).map_values(|e: Seq<char>| "    - "@ + e).push("    - "@ + all[k as int]));
            }
            k += 1;
        }
        assert(all.take(errors@.len() as int) =~= all);
    } else if verbose >= 2 {
        let mut line = String::from_str("  ");
        line.append(file);
        line.append(" OK");
        lines.push(line);
        assert(lines.deep_view() =~= seq!["  "@ + file@ + " OK"@]);
    } else {
        assert(lines.deep_view() =~= Seq::<Seq<char>>::empty());
    }
    lines
}

/// A file that could not be read or loaded, or that has at least one
/// semantic error, sets the exit code to 1; a file checked without errors
/// leaves it as it was; a file the schema validator rejected sets the
/// validator's code, or 1 where it had none.
pub proof fn lemma_exit_code_after_each_outcome(current: i32, n: usize, code: Option<i32>)
    ensures
        n > 0 ==> exit_code_after(current, FileOutcome::Checked(n)) == 1,
        exit_code_after(current, FileOutcome::Checked(0)) == current,
        exit_code_after(current, FileOutcome::ReadFailed) == 1,
        exit_code_after(current, FileOutcome::LoadFailed) == 1,
        exit_code_after(current, FileOutcome::SchemaRejected(code)) == match code {
            Some(c) => c,
            None => 1,
        },
        exit_code_after(current, FileOutcome::SchemaRejected(code)) != 0 || code == Some(0i32),
{
}

/// Once a file has semantic errors, the exit code stays 1 through any
/// number of files that are checked afterwards, with or without errors.
pub proof fn lemma_errors_keep_exit_code(current: i32, n: usize, later: Seq<usize>)
    requires
        n > 0,
    ensures
        later.fold_left(
            exit_code_after(current, FileOutcome::Checked(n)),
            |code: i32, m: usize| exit_code_after(code, FileOutcome::Checked(m)),
        ) == 1,
    decreases later.len(),
{
    if later.len() > 0 {
        lemma_errors_keep_exit_code(current, n, later.drop_last());
    }
}

/// Where there are errors, the report is the heading `  Semantic errors in
/// file:` and then one line `    - error` per error, in order: one line
/// more than there are errors, and no `OK` line. Where there are none, it
/// is the single line `  file OK` at verbosity 2 and more, else nothing.
pub proof fn lemma_report_lines_shape(file: Seq<char>, errors: Seq<Seq<char>>, verbose: u8)
    ensures
        errors.len() > 0 ==> {
            let lines = report_lines(file, errors, verbose);
            &&& lines.len() == errors.len() + 1
            &&& lines[0] == "  Semantic errors in "@ + file + ":"@
            &&& forall|k: int| 0 <= k < errors.len() ==> #[trigger] lines[k + 1] == "    - "@ + errors[k]
        },
        errors.len() == 0 && verbose >= 2 ==> report_lines(file, errors, verbose) == seq![
            "  "@ + file + " OK"@,
        ],
        errors.len() == 0 && verbose < 2 ==> report_lines(file, errors, verbose).len() == 0,
{
    if errors.len() > 0 {
        let lines = report_lines(file, errors, verbose);
        let tail = errors.map_values(|e: Seq<char>| "    - "@ + e);
        assert forall|k: int| 0 <= k < errors.len() implies #[trigger] lines[k + 1] == "    - "@
            + errors[k] by {
            assert(lines[k + 1] == tail[k]);
        }
    }
}

} // verus!
