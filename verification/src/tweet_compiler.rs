//! The pipeline: decode each input file into posts, aggregate each file into
//! a local table, merge local tables into the global table, and prune rare
//! words once every file has been processed.

use vstd::prelude::*;

use crate::foreign::bunzip_of;
use crate::foreign::bz_decode;
use crate::foreign::json_post_of;
use crate::foreign::parse_post_line;
use crate::maps::count_of;
use crate::maps::lm_add;
use crate::maps::lm_merge;
use crate::maps::lm_prune;
use crate::maps::sat_add;
use crate::maps::words_of;
use crate::maps::LanguageMap;
use crate::text::lines_spec;
use crate::text::split_at_spec;
use crate::text::split_lines;
use crate::text::split_words;
use crate::tweet::tweets_view;
use crate::tweet::Tweet;
use crate::util::clean_spec;
use crate::util::cleanup_word;
use crate::util::qualifies_spec;
use crate::util::word_qualifies;

verus! {

/// Words below this global count are pruned when no other threshold is set.
pub const DEFAULT_PRUNE_THRESHOLD: u64 = 100;

// ---------------------------------------------------------------------------
// The pipeline's mathematical model
// ---------------------------------------------------------------------------

/// The word map after counting a post's tokens in order: each token is
/// cleaned, then it is counted only if it qualifies.
pub open spec fn wm_consume(m: Map<Seq<char>, u64>, tokens: Seq<Seq<char>>) -> Map<Seq<char>, u64>
    decreases tokens.len(),
{
    if tokens.len() == 0 {
        m
    } else {
        let m1 = wm_consume(m, tokens.drop_last());
        let w = clean_spec(tokens.last());
        if qualifies_spec(w) {
            m1.insert(w, sat_add(count_of(m1, w), 1))
        } else {
            m1
        }
    }
}

/// The table after one post: its text split on spaces and counted under its
/// language.
pub open spec fn lm_add_text(
    m: Map<Seq<char>, Map<Seq<char>, u64>>,
    lang: Seq<char>,
    text: Seq<char>,
) -> Map<Seq<char>, Map<Seq<char>, u64>> {
    m.insert(lang, wm_consume(words_of(m, lang), split_at_spec(text, ' ')))
}

/// The table after a sequence of posts.
pub open spec fn lm_process(
    m: Map<Seq<char>, Map<Seq<char>, u64>>,
    tweets: Seq<(Seq<char>, Seq<char>)>,
) -> Map<Seq<char>, Map<Seq<char>, u64>>
    decreases tweets.len(),
{
    if tweets.len() == 0 {
        m
    } else {
        lm_add_text(lm_process(m, tweets.drop_last()), tweets.last().0, tweets.last().1)
    }
}

/// The records a decoded file yields: one per line that decodes, lines that
/// fail silently skipped.
pub open spec fn records_of(lines: Seq<Seq<char>>) -> Seq<(Seq<char>, Seq<char>)>
    decreases lines.len(),
{
    if lines.len() == 0 {
        Seq::empty()
    } else {
        let rest = records_of(lines.drop_last());
        match json_post_of(lines.last()) {
            Some(r) => rest.push(r),
            None => rest,
        }
    }
}

/// The local table one file's bytes yield, or nothing when decompression or
/// UTF-8 decoding fails.
pub open spec fn file_table_of(data: Seq<u8>) -> Option<Map<Seq<char>, Map<Seq<char>, u64>>> {
    match bunzip_of(data) {
        Some(content) => Some(
            lm_process(
                Map::<Seq<char>, Map<Seq<char>, u64>>::empty(),
                records_of(lines_spec(content)),
            ),
        ),
        None => None,
    }
}

/// Every file's local table folded into `g`; files that fail to decode are
/// skipped and never fail the run.
pub open spec fn tables_merged(
    g: Map<Seq<char>, Map<Seq<char>, u64>>,
    files: Seq<Seq<u8>>,
) -> Map<Seq<char>, Map<Seq<char>, u64>>
    decreases files.len(),
{
    if files.len() == 0 {
        g
    } else {
        let g1 = tables_merged(g, files.drop_last());
        match file_table_of(files.last()) {
            Some(t) => lm_merge(g1, t),
            None => g1,
        }
    }
}

/// The local tables of the files that decode, in file order.
pub open spec fn file_tables(files: Seq<Seq<u8>>) -> Seq<Map<Seq<char>, Map<Seq<char>, u64>>>
    decreases files.len(),
{
    if files.len() == 0 {
        Seq::empty()
    } else {
        let rest = file_tables(files.drop_last());
        match file_table_of(files.last()) {
            Some(t) => rest.push(t),
            None => rest,
        }
    }
}

/// Compiling is exactly the merge fold of each decodable file's local table —
/// so, by `lemma_merge_any_order`, the order the scheduler completes files in
/// cannot change the result.
pub proof fn lemma_compile_is_merge_fold(
    g: Map<Seq<char>, Map<Seq<char>, u64>>,
    files: Seq<Seq<u8>>,
)
    ensures
        tables_merged(g, files) == crate::maps::lm_merge_all(g, file_tables(files)),
    decreases files.len(),
{
    if files.len() > 0 {
        lemma_compile_is_merge_fold(g, files.drop_last());
        if file_table_of(files.last()) is Some {
            let rest = file_tables(files.drop_last());
            assert(file_tables(files).drop_last() =~= rest);
        }
    }
}

// ---------------------------------------------------------------------------
// The file processor
// ---------------------------------------------------------------------------

/// Decodes one file held in memory into posts: decompresses the whole stream,
/// splits it into lines, and decodes each line, skipping lines that fail.
/// Returns nothing only when the stream itself cannot be decoded.
pub fn process_file(data: &Vec<u8>) -> (r: Option<Vec<Tweet>>)
    ensures
        match r {
            Some(ts) => bunzip_of(data@) is Some && tweets_view(ts@) == records_of(
                lines_spec(bunzip_of(data@).unwrap()),
            ),
            None => bunzip_of(data@) is None,
        },
{
    let content = match bz_decode(data) {
        Some(c) => c,
        None => { return None },
    };
    let lines = split_lines(content.as_str());
    let n = lines.len();
    let mut ts: Vec<Tweet> = Vec::new();
    let mut i: usize = 0;
    proof {
        assert(lines.deep_view().take(0) =~= Seq::<Seq<char>>::empty());
        assert(tweets_view(ts@) =~= records_of(lines.deep_view().take(0)));
    }
    while i < n
        invariant
            i <= n == lines@.len(),
            lines.deep_view() == lines_spec(content@),
            tweets_view(ts@) == records_of(lines.deep_view().take(i as int)),
        decreases n - i,
    {
        proof {
            assert(lines.deep_view().take(i + 1).drop_last() =~= lines.deep_view().take(i as int));
            assert(lines.deep_view().take(i + 1).last() == lines@[i as int]@);
        }
        let ghost ts0 = ts@;
        match parse_post_line(lines[i].as_str()) {
            Some(t) => {
                ts.push(t);
                proof {
                    assert(tweets_view(ts@) =~= tweets_view(ts0).push((t.lang@, t.text@)));
                    assert(tweets_view(ts@) =~= records_of(lines.deep_view().take(i + 1)));
                }
            },
            None => {
                proof {
                    assert(tweets_view(ts@) =~= records_of(lines.deep_view().take(i + 1)));
                }
            },
        }
        i += 1;
    }
    proof {
        assert(lines.deep_view().take(n as int) =~= lines.deep_view());
    }
    Some(ts)
}

/// Builds the local per-file table: every post's text is split on spaces,
/// each token cleaned and qualified, and the survivors counted under the
/// post's language. The post's language entry exists afterwards even when no
/// token survives.
pub fn aggregate_file(tweets: &Vec<Tweet>) -> (local: LanguageMap)
    ensures
        local.wf(),
        local@ == lm_process(
            Map::<Seq<char>, Map<Seq<char>, u64>>::empty(),
            tweets_view(tweets@),
        ),
{
    let mut local = LanguageMap::new();
    let n = tweets.len();
    let mut ti: usize = 0;
    proof {
        assert(tweets_view(tweets@).take(0) =~= Seq::<(Seq<char>, Seq<char>)>::empty());
    }
    while ti < n
        invariant
            ti <= n == tweets@.len(),
            local.wf(),
            local@ == lm_process(
                Map::<Seq<char>, Map<Seq<char>, u64>>::empty(),
                tweets_view(tweets@).take(ti as int),
            ),
        decreases n - ti,
    {
        proof {
            assert(tweets_view(tweets@).take(ti + 1).drop_last() =~= tweets_view(tweets@).take(
                ti as int,
            ));
            assert(tweets_view(tweets@).take(ti + 1).last() == (
                tweets@[ti as int].lang@,
                tweets@[ti as int].text@,
            ));
        }
        let ghost base = local@;
        let t = &tweets[ti];
        let ghost lang_v = t.lang@;
        let ghost text_v = t.text@;
        local.ensure_lang(&t.lang);
        let ghost w0 = words_of(base, lang_v);
        let words = split_words(t.text.as_str());
        let wn = words.len();
        let mut wi: usize = 0;
        proof {
            assert(split_at_spec(text_v, ' ').take(0) =~= Seq::<Seq<char>>::empty());
        }
        while wi < wn
            invariant
                wi <= wn == words@.len(),
                local.wf(),
                lang_v == t.lang@,
                words.deep_view() == split_at_spec(text_v, ' '),
                local@ == base.insert(
                    lang_v,
                    wm_consume(w0, split_at_spec(text_v, ' ').take(wi as int)),
                ),
            decreases wn - wi,
        {
            proof {
                assert(words.deep_view().take(wi + 1).drop_last() =~= words.deep_view().take(
                    wi as int,
                ));
                assert(words.deep_view().take(wi + 1).last() == words@[wi as int]@);
            }
            let cleaned = cleanup_word(words[wi].as_str());
            let ghost m1 = wm_consume(w0, split_at_spec(text_v, ' ').take(wi as int));
            if word_qualifies(&cleaned) {
                local.add_word(&t.lang, &cleaned, 1);
                proof {
                    let w = clean_spec(words.deep_view()[wi as int]);
                    assert(cleaned@ == w);
                    assert(words_of(base.insert(lang_v, m1), lang_v) == m1);
                    assert(local@ == lm_add(base.insert(lang_v, m1), lang_v, w, 1));
                    assert(local@ =~= base.insert(
                        lang_v,
                        wm_consume(w0, split_at_spec(text_v, ' ').take(wi + 1)),
                    ));
                }
            } else {
                proof {
                    assert(local@ =~= base.insert(
                        lang_v,
                        wm_consume(w0, split_at_spec(text_v, ' ').take(wi + 1)),
                    ));
                }
            }
            wi += 1;
        }
        proof {
            assert(split_at_spec(text_v, ' ').take(wn as int) =~= split_at_spec(text_v, ' '));
            assert(local@ =~= lm_add_text(base, lang_v, text_v));
        }
        ti += 1;
    }
    proof {
        assert(tweets_view(tweets@).take(n as int) =~= tweets_view(tweets@));
    }
    local
}

/// Aggregates one file's posts into a fresh local table, then merges it into
/// the global table — the deliberate two-level strategy that touches the
/// shared table once per file instead of once per token.
pub fn process_tweets(tweets: Vec<Tweet>, global: &mut LanguageMap)
    requires
        old(global).wf(),
    ensures
        final(global).wf(),
        final(global)@ == lm_merge(
            old(global)@,
            lm_process(
                Map::<Seq<char>, Map<Seq<char>, u64>>::empty(),
                tweets_view(tweets@),
            ),
        ),
{
    let local = aggregate_file(&tweets);
    global.merge(&local);
}

// ---------------------------------------------------------------------------
// The orchestrator
// ---------------------------------------------------------------------------

/// The orchestrator: owns the input files' bytes and the global table,
/// processes every file, then prunes once all merges have landed.
pub struct TweetCompiler {
    pub files: Vec<Vec<u8>>,
    pub language_map: LanguageMap,
    pub threshold: u64,
}

impl TweetCompiler {
    pub open spec fn wf(&self) -> bool {
        self.language_map.wf()
    }

    /// A compiler over the given in-memory input files, starting from an
    /// empty global table and the default prune threshold.
    pub fn new(files: Vec<Vec<u8>>) -> (r: TweetCompiler)
        ensures
            r.wf(),
            r.files == files,
            r.language_map@ == Map::<Seq<char>, Map<Seq<char>, u64>>::empty(),
            r.threshold == DEFAULT_PRUNE_THRESHOLD,
    {
        TweetCompiler { files, language_map: LanguageMap::new(), threshold: DEFAULT_PRUNE_THRESHOLD }
    }

    /// The same compiler with another prune threshold.
    pub fn with_threshold(self, k: u64) -> (r: TweetCompiler)
        ensures
            r.files == self.files,
            r.language_map == self.language_map,
            r.threshold == k,
    {
        TweetCompiler { files: self.files, language_map: self.language_map, threshold: k }
    }

    /// Processes every file — a file that fails to decode is skipped, never
    /// fatal — merges each local table into the global table, prunes words
    /// below the threshold, and hands the finished table to the caller.
    pub fn compile(self) -> (r: LanguageMap)
        requires
            self.wf(),
        ensures
            r.wf(),
            r@ == lm_prune(
                tables_merged(self.language_map@, self.files.deep_view()),
                self.threshold,
            ),
    {
        let ghost g0 = self.language_map@;
        let TweetCompiler { files, language_map: mut global, threshold } = self;
        let n = files.len();
        let mut fi: usize = 0;
        proof {
            assert(files.deep_view().take(0) =~= Seq::<Seq<u8>>::empty());
        }
        while fi < n
            invariant
                fi <= n == files@.len(),
                files.deep_view() == self.files.deep_view(),
                global.wf(),
                global@ == tables_merged(g0, files.deep_view().take(fi as int)),
            decreases n - fi,
        {
            proof {
                assert(files.deep_view().take(fi + 1).drop_last() =~= files.deep_view().take(
                    fi as int,
                ));
                assert(files.deep_view().take(fi + 1).last() == files@[fi as int]@);
            }
            match process_file(&files[fi]) {
                Some(tweets) => {
                    process_tweets(tweets, &mut global);
                    proof {
                        assert(global@ == tables_merged(g0, files.deep_view().take(fi + 1)));
                    }
                },
                None => {
                    proof {
                        assert(global@ == tables_merged(g0, files.deep_view().take(fi + 1)));
                    }
                },
            }
            fi += 1;
        }
        proof {
            assert(files.deep_view().take(n as int) =~= files.deep_view());
        }
        global.prune(threshold);
        global
    }
}

} // verus!
