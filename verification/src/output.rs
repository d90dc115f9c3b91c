//! The text form of flattened lines: `NAME=VALUE`, one line each.

use vstd::prelude::*;

verus! {

/// The text of one line: the name, an equals sign, the value as it is, and a
/// newline.
pub open spec fn line_text(line: (Seq<char>, Seq<char>)) -> Seq<char> {
    line.0 + seq!['='] + line.1 + seq!['\n']
}

/// The text of a sequence of lines: the texts of the lines, in order.
pub open spec fn rendered(lines: Seq<(Seq<char>, Seq<char>)>) -> Seq<char>
    decreases lines.len(),
{
    if lines.len() == 0 {
        Seq::empty()
    } else {
        rendered(lines.drop_last()) + line_text(lines.last())
    }
}

/// Writes one line as `NAME=VALUE` followed by a newline. Nothing in the value
/// is escaped.
pub fn format_line(name: &str, value: &str) -> (text: String)
    ensures
        text@ == line_text((name@, value@)),
{
    let mut text = String::new();
    text.append(name);
    text.append("=");
    text.append(value);
    text.append("\n");
    proof {
        reveal_strlit("=");
        reveal_strlit("\n");
        assert("="@ =~= seq!['=']);
        assert("\n"@ =~= seq!['\n']);
        assert(text@ =~= line_text((name@, value@)));
    }
    text
}

/// Writes the lines one after the other, each as `NAME=VALUE` followed by a
/// newline.
pub fn render(lines: &[(String, String)]) -> (text: String)
    ensures
        text@ == rendered(lines.deep_view()),
{
    let mut text = String::new();
    let mut i: usize = 0;
    assert(lines.deep_view().take(0) =~= Seq::empty());
    while i < lines.len()
        invariant
            i <= lines.len(),
            text@ == rendered(lines.deep_view().take(i as int)),
        decreases lines.len() - i,
    {
        let line = format_line(lines[i].0.as_str(), lines[i].1.as_str());
        text.append(line.as_str());
        proof {
            let upto = lines.deep_view().take(i + 1);
            assert(upto.drop_last() =~= lines.deep_view().take(i as int));
            assert(upto.last() == (lines@[i as int].0@, lines@[i as int].1@));
        }
        i = i + 1;
    }
    proof {
        assert(lines.deep_view().take(lines.len() as int) =~= lines.deep_view());
    }
    text
}

} // verus!
