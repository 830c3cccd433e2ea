use vstd::prelude::*;
use vstd::string::StringExecFns;

verus! {

/// The words joined by single spaces.
pub open spec fn spaced(words: Seq<String>) -> Seq<char>
    decreases words.len(),
{
    if words.len() == 0 {
        Seq::empty()
    } else if words.len() == 1 {
        words[0]@
    } else {
        spaced(words.drop_last()) + " "@ + words.last()@
    }
}

/// One line for each text, numbered by its label: `Tree <label>: <text>`.
pub open spec fn root_lines(labels: Seq<String>, texts: Seq<String>) -> Seq<char>
    decreases labels.len(),
{
    if labels.len() == 0 {
        Seq::empty()
    } else {
        root_lines(labels.drop_last(), texts.drop_last()) + "Tree "@ + labels.last()@ + ": "@
            + texts.last()@ + "\n"@
    }
}

/// The line `Min: <text>` where there is a minimum, nothing otherwise.
pub open spec fn min_line(min_text: Option<String>) -> Seq<char> {
    match min_text {
        Some(text) => "Min: "@ + text@ + "\n"@,
        None => Seq::empty(),
    }
}

/// The whole dump: the minimum's line, then one line for each root.
pub open spec fn dump(min_text: Option<String>, labels: Seq<String>, texts: Seq<String>) -> Seq<
    char,
> {
    min_line(min_text) + root_lines(labels, texts)
}

/// Joins the words with single spaces.
pub fn join_words(words: &Vec<String>) -> (r: String)
    ensures
        r@ == spaced(words@),
{
    let mut text = String::new();
    let mut i: usize = 0;
    while i < words.len()
        invariant
            i <= words.len(),
            text@ == spaced(words@.take(i as int)),
        decreases words.len() - i,
    {
        if i > 0 {
            text.append(" ");
        }
        text.append(words[i].as_str());
        i += 1;
        proof {
            let prefix = words@.take(i as int);
            assert(prefix.drop_last() =~= words@.take(i - 1));
            assert(prefix.last() == words@[i - 1]);
            if i == 1 {
                assert(text@ =~= prefix[0]@);
            }
        }
    }
    proof {
        assert(words@.take(words@.len() as int) =~= words@);
    }
    text
}

/// Lays out the dump of a heap from the rendered minimum tree, if any, and
/// the label and the rendered tree of each root.
pub fn layout(min_text: &Option<String>, labels: &Vec<String>, texts: &Vec<String>) -> (r: String)
    requires
        labels@.len() == texts@.len(),
    ensures
        r@ == dump(*min_text, labels@, texts@),
{
    let mut text = String::new();
    match min_text {
        Some(line) => {
            text.append("Min: ");
            text.append(line.as_str());
            text.append("\n");
        },
        None => {},
    }
    assert(text@ =~= min_line(*min_text));
    let mut i: usize = 0;
    while i < labels.len()
        invariant
            i <= labels.len(),
            labels@.len() == texts@.len(),
            text@ == min_line(*min_text) + root_lines(
                labels@.take(i as int),
                texts@.take(i as int),
            ),
        decreases labels.len() - i,
    {
        text.append("Tree ");
        text.append(labels[i].as_str());
        text.append(": ");
        text.append(texts[i].as_str());
        text.append("\n");
        i += 1;
        proof {
            assert(labels@.take(i as int).drop_last() =~= labels@.take(i - 1));
            assert(texts@.take(i as int).drop_last() =~= texts@.take(i - 1));
            assert(text@ =~= min_line(*min_text) + root_lines(
                labels@.take(i as int),
                texts@.take(i as int),
            ));
        }
    }
    proof {
        assert(labels@.take(labels@.len() as int) =~= labels@);
        assert(texts@.take(texts@.len() as int) =~= texts@);
    }
    text
}

} // verus!
