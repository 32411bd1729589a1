//! Rendering of bumps: the text report and the model of the JSON report.
use crate::compare::{chars_of, BumpView, ChangeView, VersionBump};
use vstd::prelude::*;
use vstd::string::StringExecFns;

verus! {

/// The breaking bumps, in order.
pub open spec fn breaking_only(bumps: Seq<BumpView>) -> Seq<BumpView> {
    bumps.filter(|b: BumpView| b.3)
}

/// The non-breaking bumps, in order.
pub open spec fn non_breaking_only(bumps: Seq<BumpView>) -> Seq<BumpView> {
    bumps.filter(|b: BumpView| !b.3)
}

/// The decimal digit of `d`.
pub open spec fn digit_char(d: nat) -> char {
    if d == 0 {
        '0'
    } else if d == 1 {
        '1'
    } else if d == 2 {
        '2'
    } else if d == 3 {
        '3'
    } else if d == 4 {
        '4'
    } else if d == 5 {
        '5'
    } else if d == 6 {
        '6'
    } else if d == 7 {
        '7'
    } else if d == 8 {
        '8'
    } else {
        '9'
    }
}

/// `n` written in decimal, without leading zeros.
pub open spec fn decimal(n: nat) -> Seq<char>
    decreases n,
{
    if n < 10 {
        seq![digit_char(n)]
    } else {
        decimal(n / 10).push(digit_char(n % 10))
    }
}

/// Relies on `usize`'s `Display`, through `to_string`: `n` in decimal.
#[verifier::external_body]
fn decimal_text(n: usize) -> (r: String)
    ensures
        r@ == decimal(n as nat),
{
    n.to_string()
}

/// The text shown when there is nothing to report.
pub open spec fn nothing_text() -> Seq<char> {
    "No breaking changes detected."@
}

/// The label of a breaking bump: `0.x MINOR` where the new version starts with `0`.
pub open spec fn change_label(new_version: Seq<char>) -> Seq<char> {
    if new_version.len() > 0 && new_version[0] == '0' {
        "0.x MINOR"@
    } else {
        "MAJOR"@
    }
}

/// `  name: old → new`.
pub open spec fn change_text(b: BumpView) -> Seq<char> {
    "  "@ + b.0 + ": "@ + b.1 + " → "@ + b.2
}

/// The line of a breaking bump.
pub open spec fn breaking_line(b: BumpView) -> Seq<char> {
    change_text(b) + " ("@ + change_label(b.2) + ")"@
}

/// The line of a non-breaking bump.
pub open spec fn non_breaking_line(b: BumpView) -> Seq<char> {
    change_text(b)
}

/// The lines of the breaking section: a heading, one line per bump, a count.
pub open spec fn breaking_section(br: Seq<BumpView>) -> Seq<Seq<char>> {
    seq!["Breaking changes detected:"@] + br.map_values(|b: BumpView| breaking_line(b)) + seq![
        decimal(br.len()) + " breaking change(s) found."@,
    ]
}

/// The lines of the non-breaking section: a heading and one line per bump.
pub open spec fn non_breaking_section(nb: Seq<BumpView>) -> Seq<Seq<char>> {
    seq!["Non-breaking changes:"@] + nb.map_values(|b: BumpView| non_breaking_line(b))
}

/// The lines of a report that is not empty.
pub open spec fn report_lines(bumps: Seq<BumpView>, all: bool) -> Seq<Seq<char>> {
    let br = breaking_only(bumps);
    let nb = non_breaking_only(bumps);
    let first = if br.len() > 0 {
        breaking_section(br)
    } else {
        Seq::empty()
    };
    if all && nb.len() > 0 {
        if br.len() > 0 {
            first + seq![Seq::empty()] + non_breaking_section(nb)
        } else {
            non_breaking_section(nb)
        }
    } else {
        first
    }
}

/// Lines joined by newlines.
pub open spec fn joined(lines: Seq<Seq<char>>) -> Seq<char>
    decreases lines.len(),
{
    if lines.len() == 0 {
        Seq::empty()
    } else if lines.len() == 1 {
        lines[0]
    } else {
        joined(lines.drop_last()) + "\n"@ + lines.last()
    }
}

/// The text report: the breaking bumps and, with `all`, the non-breaking ones too;
/// a fixed sentence where none of those is to be shown.
pub open spec fn text_report(bumps: Seq<BumpView>, all: bool) -> Seq<char> {
    let br = breaking_only(bumps);
    let nb = non_breaking_only(bumps);
    if br.len() == 0 && (nb.len() == 0 || !all) {
        nothing_text()
    } else {
        joined(report_lines(bumps, all))
    }
}


/// The views of a list of strings.
pub open spec fn texts(v: Seq<String>) -> Seq<Seq<char>> {
    v.map_values(|l: String| l@)
}

/// Joins lines with newlines.
fn join_lines(lines: &Vec<String>) -> (r: String)
    ensures
        r@ == joined(texts(lines@)),
{
    let ghost v = texts(lines@);
    if lines.len() == 0 {
        return String::new();
    }
    let mut r = lines[0].clone();
    let mut i: usize = 1;
    proof {
        assert(v.take(1).drop_last() =~= Seq::<Seq<char>>::empty());
    }
    while i < lines.len()
        invariant
            1 <= i <= lines@.len(),
            v == texts(lines@),
            r@ == joined(v.take(i as int)),
        decreases lines.len() - i,
    {
        r.append("\n");
        r.append(lines[i].as_str());
        proof {
            assert(v.take(i + 1).drop_last() =~= v.take(i as int));
        }
        i += 1;
    }
    proof {
        assert(v.take(i as int) =~= v);
    }
    r
}

/// Appends clones of `src` to `dst`.
fn push_all(dst: &mut Vec<String>, src: &Vec<String>)
    ensures
        texts(final(dst)@) == texts(old(dst)@) + texts(src@),
{
    let ghost start = texts(dst@);
    let mut i: usize = 0;
    while i < src.len()
        invariant
            i <= src@.len(),
            texts(dst@) == start + texts(src@).take(i as int),
        decreases src.len() - i,
    {
        let ghost prev = dst@;
        dst.push(src[i].clone());
        proof {
            assert(texts(dst@) =~= texts(prev).push(src@[i as int]@));
            assert(texts(src@).take(i + 1) =~= texts(src@).take(i as int).push(src@[i as int]@));
            assert(texts(dst@) =~= start + texts(src@).take(i + 1));
        }
        i += 1;
    }
    proof {
        assert(texts(src@).take(i as int) =~= texts(src@));
    }
}

/// `  name: old → new` for one bump.
fn change_line(b: &VersionBump) -> (r: String)
    ensures
        r@ == change_text(b@),
{
    let mut r = "  ".to_owned();
    r.append(b.package_name.as_str());
    r.append(": ");
    r.append(b.old_version.as_str());
    r.append(" → ");
    r.append(b.new_version.as_str());
    r
}

/// The label of a breaking bump.
fn label(new_version: &String) -> (r: &'static str)
    ensures
        r@ == change_label(new_version@),
{
    let cs = chars_of(new_version.as_str());
    if cs.len() > 0 && cs[0] == '0' {
        "0.x MINOR"
    } else {
        "MAJOR"
    }
}

/// Renders the bumps as text: the breaking ones with their label and a count, and,
/// where `all` is set, the non-breaking ones after them.
pub fn format_text(bumps: &[VersionBump], all: bool) -> (r: String)
    ensures
        r@ == text_report(bumps@.map_values(|b: VersionBump| b@), all),
{
    let ghost bv = bumps@.map_values(|b: VersionBump| b@);
    let mut br_lines: Vec<String> = Vec::new();
    let mut nb_lines: Vec<String> = Vec::new();
    let mut i: usize = 0;
    proof {
        assert(bv.take(0) =~= Seq::<BumpView>::empty());
        assert(texts(br_lines@) =~= Seq::<Seq<char>>::empty());
        assert(texts(nb_lines@) =~= Seq::<Seq<char>>::empty());
        assert(breaking_only(bv.take(0)).map_values(|b: BumpView| breaking_line(b))
            =~= Seq::<Seq<char>>::empty());
        assert(non_breaking_only(bv.take(0)).map_values(|b: BumpView| non_breaking_line(b))
            =~= Seq::<Seq<char>>::empty());
    }
    while i < bumps.len()
        invariant
            i <= bumps@.len(),
            bv == bumps@.map_values(|b: VersionBump| b@),
            texts(br_lines@) == breaking_only(bv.take(i as int)).map_values(
                |b: BumpView| breaking_line(b),
            ),
            texts(nb_lines@) == non_breaking_only(bv.take(i as int)).map_values(
                |b: BumpView| non_breaking_line(b),
            ),
        decreases bumps.len() - i,
    {
        let b = &bumps[i];
        let ghost before_br = breaking_only(bv.take(i as int));
        let ghost before_nb = non_breaking_only(bv.take(i as int));
        proof {
            assert(bv.take(i + 1).drop_last() =~= bv.take(i as int));
            assert(bv.take(i + 1).last() == b@);
            reveal_with_fuel(Seq::filter, 2);
            assert(breaking_only(bv.take(i + 1)) == if b@.3 {
                before_br.push(b@)
            } else {
                before_br
            });
            assert(non_breaking_only(bv.take(i + 1)) == if !b@.3 {
                before_nb.push(b@)
            } else {
                before_nb
            });
        }
        if b.is_breaking {
            let mut line = change_line(b);
            line.append(" (");
            line.append(label(&b.new_version));
            line.append(")");
            br_lines.push(line);
            proof {
                assert(before_br.push(b@).map_values(|b: BumpView| breaking_line(b))
                    =~= before_br.map_values(|b: BumpView| breaking_line(b)).push(
                    breaking_line(b@),
                ));
                assert(texts(br_lines@) =~= breaking_only(bv.take(i + 1)).map_values(
                    |b: BumpView| breaking_line(b),
                ));
            }
        } else {
            nb_lines.push(change_line(b));
            proof {
                assert(before_nb.push(b@).map_values(|b: BumpView| non_breaking_line(b))
                    =~= before_nb.map_values(|b: BumpView| non_breaking_line(b)).push(
                    non_breaking_line(b@),
                ));
                assert(texts(nb_lines@) =~= non_breaking_only(bv.take(i + 1)).map_values(
                    |b: BumpView| non_breaking_line(b),
                ));
            }
        }
        i += 1;
    }
    proof {
        assert(bv.take(i as int) =~= bv);
    }
    let ghost br = breaking_only(bv);
    let ghost nb = non_breaking_only(bv);
    let n_breaking = br_lines.len();
    if n_breaking == 0 && (nb_lines.len() == 0 || !all) {
        return "No breaking changes detected.".to_owned();
    }
    let mut lines: Vec<String> = Vec::new();
    if n_breaking > 0 {
        lines.push("Breaking changes detected:".to_owned());
        push_all(&mut lines, &br_lines);
        proof {
            assert(texts(br_lines@).len() == br_lines@.len());
            assert(texts(br_lines@) == br.map_values(|b: BumpView| breaking_line(b)));
            assert(n_breaking == br.len());
        }
        let ghost head = texts(lines@);
        let mut count = decimal_text(n_breaking);
        count.append(" breaking change(s) found.");
        lines.push(count);
        proof {
            assert(head =~= seq!["Breaking changes detected:"@] + br.map_values(
                |b: BumpView| breaking_line(b),
            ));
            assert(texts(lines@) =~= head.push(count@));
            assert(texts(lines@) =~= breaking_section(br));
        }
    }
    let ghost first = texts(lines@);
    if all && nb_lines.len() > 0 {
        if n_breaking > 0 {
            lines.push(String::new());
        }
        lines.push("Non-breaking changes:".to_owned());
        push_all(&mut lines, &nb_lines);
        proof {
            if n_breaking > 0 {
                assert(texts(lines@) =~= first + seq![Seq::empty()] + non_breaking_section(nb));
            } else {
                assert(texts(lines@) =~= non_breaking_section(nb));
            }
        }
    }
    proof {
        if !(all && nb_lines.len() > 0) && n_breaking == 0 {
            assert(texts(lines@) =~= Seq::<Seq<char>>::empty());
        }
        assert(texts(lines@) == report_lines(bv, all));
    }
    join_lines(&lines)
}


/// One entry of the JSON report.
#[derive(Debug, Clone, PartialEq, Eq)]
pub struct PackageChange {
    pub package: String,
    pub old_version: String,
    pub new_version: String,
}

impl View for PackageChange {
    type V = ChangeView;

    open spec fn view(&self) -> ChangeView {
        (self.package@, self.old_version@, self.new_version@)
    }
}

/// The content of the JSON report: an array `breaking_changes` and, only where
/// asked for and not empty, an array `non_breaking_changes`.
#[derive(Debug, Clone, PartialEq, Eq)]
pub struct JsonReport {
    pub breaking_changes: Vec<PackageChange>,
    pub non_breaking_changes: Option<Vec<PackageChange>>,
}

/// The report entry of a bump.
pub open spec fn change_of(b: BumpView) -> ChangeView {
    (b.0, b.1, b.2)
}

/// The views of a list of report entries.
pub open spec fn entries_of(v: Seq<PackageChange>) -> Seq<ChangeView> {
    v.map_values(|c: PackageChange| c@)
}

fn change_entry(b: &VersionBump) -> (r: PackageChange)
    ensures
        r@ == change_of(b@),
{
    PackageChange {
        package: b.package_name.clone(),
        old_version: b.old_version.clone(),
        new_version: b.new_version.clone(),
    }
}

/// Builds the JSON report: the breaking bumps in order, and, where `all` is set
/// and there are any, the non-breaking bumps in order.
pub fn json_report(bumps: &[VersionBump], all: bool) -> (r: JsonReport)
    ensures
        entries_of(r.breaking_changes@) == breaking_only(
            bumps@.map_values(|b: VersionBump| b@),
        ).map_values(|b: BumpView| change_of(b)),
        match r.non_breaking_changes {
            Some(v) => all && non_breaking_only(bumps@.map_values(|b: VersionBump| b@)).len() > 0
                && entries_of(v@) == non_breaking_only(
                bumps@.map_values(|b: VersionBump| b@),
            ).map_values(|b: BumpView| change_of(b)),
            None => !all || non_breaking_only(bumps@.map_values(|b: VersionBump| b@)).len()
                == 0,
        },
{
    let ghost bv = bumps@.map_values(|b: VersionBump| b@);
    let mut breaking: Vec<PackageChange> = Vec::new();
    let mut others: Vec<PackageChange> = Vec::new();
    let mut i: usize = 0;
    proof {
        assert(bv.take(0) =~= Seq::<BumpView>::empty());
        assert(entries_of(breaking@) =~= Seq::<ChangeView>::empty());
        assert(entries_of(others@) =~= Seq::<ChangeView>::empty());
        assert(breaking_only(bv.take(0)).map_values(|b: BumpView| change_of(b))
            =~= Seq::<ChangeView>::empty());
        assert(non_breaking_only(bv.take(0)).map_values(|b: BumpView| change_of(b))
            =~= Seq::<ChangeView>::empty());
    }
    while i < bumps.len()
        invariant
            i <= bumps@.len(),
            bv == bumps@.map_values(|b: VersionBump| b@),
            entries_of(breaking@) == breaking_only(bv.take(i as int)).map_values(
                |b: BumpView| change_of(b),
            ),
            entries_of(others@) == non_breaking_only(bv.take(i as int)).map_values(
                |b: BumpView| change_of(b),
            ),
        decreases bumps.len() - i,
    {
        let b = &bumps[i];
        let ghost before_br = breaking_only(bv.take(i as int));
        let ghost before_nb = non_breaking_only(bv.take(i as int));
        proof {
            assert(bv.take(i + 1).drop_last() =~= bv.take(i as int));
            assert(bv.take(i + 1).last() == b@);
            reveal_with_fuel(Seq::filter, 2);
            assert(breaking_only(bv.take(i + 1)) == if b@.3 {
                before_br.push(b@)
            } else {
                before_br
            });
            assert(non_breaking_only(bv.take(i + 1)) == if !b@.3 {
                before_nb.push(b@)
            } else {
                before_nb
            });
        }
        let entry = change_entry(b);
        if b.is_breaking {
            breaking.push(entry);
            proof {
                assert(before_br.push(b@).map_values(|b: BumpView| change_of(b))
                    =~= before_br.map_values(|b: BumpView| change_of(b)).push(change_of(b@)));
                assert(entries_of(breaking@) =~= breaking_only(bv.take(i + 1)).map_values(
                    |b: BumpView| change_of(b),
                ));
            }
        } else {
            others.push(entry);
            proof {
                assert(before_nb.push(b@).map_values(|b: BumpView| change_of(b))
                    =~= before_nb.map_values(|b: BumpView| change_of(b)).push(change_of(b@)));
                assert(entries_of(others@) =~= non_breaking_only(bv.take(i + 1)).map_values(
                    |b: BumpView| change_of(b),
                ));
            }
        }
        i += 1;
    }
    proof {
        assert(bv.take(i as int) =~= bv);
        assert(entries_of(breaking@).len() == breaking@.len());
        assert(entries_of(others@).len() == others@.len());
    }
    let non_breaking_changes = if all && others.len() > 0 {
        Some(others)
    } else {
        None
    };
    JsonReport { breaking_changes: breaking, non_breaking_changes }
}

/// The array of breaking changes in the JSON report has one entry per bump with
/// `is_breaking` set.
pub proof fn lemma_json_breaking_count(bumps: Seq<BumpView>, entries: Seq<ChangeView>)
    requires
        entries == breaking_only(bumps).map_values(|b: BumpView| change_of(b)),
    ensures
        entries.len() == bumps.filter(|b: BumpView| b.3).len(),
{
}

} // verus!
