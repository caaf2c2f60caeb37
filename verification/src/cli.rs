//! Startup settings read from command-line words: a directory and a snapshot
//! file name, each given as a `--` switch followed by a value.

use crate::text::{eq_keyword_lower, matches_lower, trim_ascii, trim_spec};
use vstd::prelude::*;

verus! {

/// One recognized startup setting.
#[derive(Debug)]
pub enum CliParam {
    Dir(String),
    DbFilename(String),
}

/// The mathematical shape of a startup setting.
pub ghost enum CliParamView {
    Dir(Seq<char>),
    DbFilename(Seq<char>),
}

impl View for CliParam {
    type V = CliParamView;

    open spec fn view(&self) -> CliParamView {
        match self {
            CliParam::Dir(s) => CliParamView::Dir(s@),
            CliParam::DbFilename(s) => CliParamView::DbFilename(s@),
        }
    }
}

impl DeepView for CliParam {
    type V = CliParamView;

    open spec fn deep_view(&self) -> CliParamView {
        self.view()
    }
}

/// The value a switch takes: the word trimmed of ASCII whitespace, unless it
/// is empty or is itself a `--` switch.
pub open spec fn spec_param_value(word: Seq<char>) -> Option<Seq<char>> {
    let t = trim_spec(word);
    if t.len() == 0 || (t.len() >= 2 && t[0] == '-' && t[1] == '-') {
        None
    } else {
        Some(t)
    }
}

/// The settings parsed from a word list: each `--dir` or `--dbfilename`
/// switch (matched ignoring ASCII case) that is followed by a usable value
/// yields one setting and consumes both words; any other word is skipped.
pub open spec fn spec_cli_params(words: Seq<Seq<char>>) -> Seq<CliParamView>
    decreases words.len(),
{
    if words.len() == 0 {
        Seq::empty()
    } else if matches_lower(words[0], "--dir"@) && words.len() >= 2 && spec_param_value(
        words[1],
    ) is Some {
        seq![CliParamView::Dir(spec_param_value(words[1]).unwrap())] + spec_cli_params(
            words.skip(2),
        )
    } else if matches_lower(words[0], "--dbfilename"@) && words.len() >= 2 && spec_param_value(
        words[1],
    ) is Some {
        seq![CliParamView::DbFilename(spec_param_value(words[1]).unwrap())] + spec_cli_params(
            words.skip(2),
        )
    } else {
        spec_cli_params(words.skip(1))
    }
}

impl CliParam {
    fn get_param_value(string: &str) -> (r: Option<String>)
        ensures
            match r {
                Some(v) => spec_param_value(string@) == Some(v@),
                None => spec_param_value(string@) is None,
            },
    {
        let t = trim_ascii(string);
        let n = t.unicode_len();
        if n == 0 {
            return None;
        }
        if n >= 2 && t.get_char(0) == '-' && t.get_char(1) == '-' {
            return None;
        }
        Some(t.to_owned())
    }

    /// Parses the recognized settings out of a word list.
    pub fn from(strings: &[String]) -> (r: Vec<CliParam>)
        ensures
            r@.map_values(|p: CliParam| p@) == spec_cli_params(strings.deep_view()),
    {
        let ghost words = strings.deep_view();
        let ghost fv = |p: CliParam| p@;
        let mut params: Vec<CliParam> = Vec::new();
        let mut i: usize = 0;
        proof {
            assert(words.skip(0) =~= words);
            assert(params@.map_values(fv) =~= Seq::<CliParamView>::empty());
        }
        while i < strings.len()
            invariant
                words == strings.deep_view(),
                words.len() == strings@.len(),
                0 <= i <= words.len(),
                fv == (|p: CliParam| p@),
                spec_cli_params(words) == params@.map_values(fv) + spec_cli_params(
                    words.skip(i as int),
                ),
            decreases words.len() - i,
        {
            let ghost w = words.skip(i as int);
            proof {
                reveal_strlit("--dir");
                reveal_strlit("--dbfilename");
                assert(w[0] == words[i as int]);
                assert(words[i as int] == strings@[i as int]@);
            }
            let is_dir = eq_keyword_lower(&strings[i], "--dir");
            let is_dbf = !is_dir && eq_keyword_lower(&strings[i], "--dbfilename");
            if (is_dir || is_dbf) && i + 1 < strings.len() {
                proof {
                    assert(w[1] == words[i + 1]);
                    assert(words[i + 1] == strings@[i + 1]@);
                }
                match Self::get_param_value(&strings[i + 1]) {
                    Some(value) => {
                        let ghost params0 = params@;
                        let ghost pv = if is_dir {
                            CliParamView::Dir(value@)
                        } else {
                            CliParamView::DbFilename(value@)
                        };
                        if is_dir {
                            params.push(CliParam::Dir(value));
                        } else {
                            params.push(CliParam::DbFilename(value));
                        }
                        proof {
                            assert(spec_cli_params(w) == seq![pv] + spec_cli_params(w.skip(2)));
                            assert(w.skip(2) =~= words.skip(i + 2));
                            assert(params@.map_values(fv) =~= params0.map_values(fv).push(pv));
                            assert(params0.map_values(fv) + (seq![pv] + spec_cli_params(
                                words.skip(i + 2),
                            )) =~= params@.map_values(fv) + spec_cli_params(words.skip(i + 2)));
                        }
                        i += 2;
                    },
                    None => {
                        proof {
                            assert(spec_cli_params(w) == spec_cli_params(w.skip(1)));
                            assert(w.skip(1) =~= words.skip(i + 1));
                        }
                        i += 1;
                    },
                }
            } else {
                proof {
                    assert(spec_cli_params(w) == spec_cli_params(w.skip(1)));
                    assert(w.skip(1) =~= words.skip(i + 1));
                }
                i += 1;
            }
        }
        proof {
            assert(words.skip(words.len() as int) =~= Seq::<Seq<char>>::empty());
            assert(spec_cli_params(words) =~= params@.map_values(fv));
        }
        params
    }
}

} // verus!
