//! Speech: what the speech model is given, when it is loaded, and how the audio
//! of a chapter is put together.
use crate::chars;
use crate::error::{AppError, AppResult};
use crate::text;
use crate::text::{
    append_str, chars_of, paragraphs_of, replaced, same, string_of, strings_of, trimmed,
};
use vstd::prelude::*;
use vstd::slice::slice_subrange;

verus! {

/// Samples in a second of audio.
pub const SR: u32 = 24000;

/// How many tokens the speech model takes at most.
pub const MAX_MODEL_TOKENS: usize = 512;

/// The repository with the weights of the speech model.
pub const MODEL_REPO: &'static str = "prince-canuma/Kokoro-82M";

/// Samples of silence between two paragraphs.
pub const PARAGRAPH_GAP: usize = 9600;

/// Samples of silence behind the title and the heading.
pub const HEADING_GAP: usize = 19200;

// ---------- What the model is given ----------

/// The text before its last space, or all of it if there is none.
pub open spec fn before_last_space(s: Seq<char>) -> Seq<char> {
    before_space(s, s.len())
}

/// The text before the last space among its first `n` characters.
pub open spec fn before_space(s: Seq<char>, n: nat) -> Seq<char>
    decreases n,
{
    if n == 0 || n > s.len() {
        s
    } else if s[n - 1] == ' ' {
        s.take(n - 1)
    } else {
        before_space(s, (n - 1) as nat)
    }
}

/// The phonemes that the model is given: as many as it takes besides the marks
/// at both ends, cut at a space if there are more. Blank phonemes give none.
pub open spec fn model_phonemes(s: Seq<char>) -> Option<Seq<char>> {
    if text::trim(s).len() == 0 {
        None
    } else if s.len() > MAX_MODEL_TOKENS - 2 {
        Some(before_last_space(s.take(MAX_MODEL_TOKENS - 2)))
    } else {
        Some(s)
    }
}

fn cut_at_last_space(s: &[char]) -> (r: &[char])
    ensures
        r@ == before_last_space(s@),
{
    let len: usize = s.len();
    let mut n: usize = len;
    while n > 0
        invariant
            len == s@.len(),
            n <= len,
            before_last_space(s@) == before_space(s@, n as nat),
        decreases n,
    {
        if s[n - 1] == ' ' {
            proof {
                assert(s@.subrange(0, n - 1) =~= s@.take(n - 1));
            }
            return slice_subrange(s, 0, n - 1);
        }
        n = n - 1;
    }
    s
}

/// The phonemes that the model is given, or nothing if they are blank.
pub fn model_input(phonemes: &str) -> (r: Option<String>)
    ensures
        match r {
            Some(t) => model_phonemes(phonemes@) == Some(t@),
            None => model_phonemes(phonemes@) is None,
        },
{
    let all = chars_of(phonemes);
    if trimmed(all.as_slice()).len() == 0 {
        return None;
    }
    if all.len() > MAX_MODEL_TOKENS - 2 {
        let first = slice_subrange(all.as_slice(), 0, MAX_MODEL_TOKENS - 2);
        proof {
            assert(first@ =~= all@.take(MAX_MODEL_TOKENS - 2));
        }
        Some(string_of(cut_at_last_space(first)))
    } else {
        Some(string_of(all.as_slice()))
    }
}

proof fn lemma_before_space(s: Seq<char>, n: nat)
    ensures
        before_space(s, n).len() <= s.len(),
    decreases n,
{
    if n > 0 && n <= s.len() && s[n - 1] != ' ' {
        lemma_before_space(s, (n - 1) as nat);
    }
}

/// The model is never given more than it takes.
pub proof fn model_input_fits(s: Seq<char>)
    ensures
        model_phonemes(s) matches Some(t) ==> t.len() + 2 <= MAX_MODEL_TOKENS,
{
    if s.len() > MAX_MODEL_TOKENS - 2 {
        let t = s.take(MAX_MODEL_TOKENS - 2);
        lemma_before_space(t, t.len());
    }
}

// ---------- Loading ----------

/// A model and voice that are loaded.
#[derive(Debug)]
pub struct Loaded {
    pub repo: String,
    pub voice: String,
}

/// The model and voice have to be loaded: none is, or another.
pub open spec fn reload_needed(
    loaded: Option<Loaded>,
    repo: Seq<char>,
    voice: Seq<char>,
) -> bool {
    match loaded {
        Some(l) => l.repo@ != repo || l.voice@ != voice,
        None => true,
    }
}

/// Do the model and voice have to be loaded?
pub fn needs_reload(loaded: &Option<Loaded>, repo: &str, voice: &str) -> (r: bool)
    ensures
        r == reload_needed(*loaded, repo@, voice@),
{
    match loaded {
        Some(l) => !same(chars_of(l.repo.as_str()).as_slice(), chars_of(repo).as_slice()) || !same(
            chars_of(l.voice.as_str()).as_slice(),
            chars_of(voice).as_slice(),
        ),
        None => true,
    }
}

/// Warm the speech model: the answer says whether it has to be loaded. On a
/// machine without it there is nothing to warm.
pub fn warm(
    supported: bool,
    loaded: &Option<Loaded>,
    repo: &str,
    voice: &str,
) -> (r: AppResult<bool>)
    ensures
        supported ==> r == Ok::<bool, AppError>(reload_needed(*loaded, repo@, voice@)),
        !supported ==> (r matches Err(AppError::Tts(m)) && m@
            == "native MLX TTS is only available on macOS (Apple Silicon)"@),
{
    if supported {
        Ok(needs_reload(loaded, repo, voice))
    } else {
        Err(
            AppError::Tts("native MLX TTS is only available on macOS (Apple Silicon)".to_owned()),
        )
    }
}

/// The error of a step of the speech model, such as loading its weights.
pub fn speech_error(step: &str, reason: &str) -> (r: AppError)
    ensures
        r matches AppError::Tts(m) && m@ == step@ + ": "@ + reason@,
{
    let mut m = chars_of(step);
    append_str(&mut m, ": ");
    append_str(&mut m, reason);
    AppError::Tts(string_of(m.as_slice()))
}

/// The name of the directory in which a repository is cached.
pub fn cache_name(repo: &str) -> (r: String)
    ensures
        r@ == "models--"@ + text::replace(repo@, "/"@, "--"@),
{
    let slash = chars_of("/");
    proof {
        reveal_strlit("/");
    }
    let mut out = chars_of("models--");
    let name = replaced(
        chars_of(repo).as_slice(),
        slash.as_slice(),
        chars_of("--").as_slice(),
    );
    text::append(&mut out, name.as_slice());
    string_of(out.as_slice())
}

/// Where downloaded models are cached: a directory and a path below it.
#[derive(Debug)]
pub struct CacheDir {
    pub base: String,
    pub below: String,
}

/// The cache of downloaded models, from what the environment sets: the home of
/// the cache, the cache itself, or the home of the user.
pub fn hub_dir(hf_home: Option<&str>, hub_cache: Option<&str>, home: Option<&str>) -> (r: CacheDir)
    ensures
        match (hf_home, hub_cache) {
            (Some(h), _) => r.base@ == h@ && r.below@ == "hub"@,
            (None, Some(c)) => r.base@ == c@ && r.below@ == ""@,
            (None, None) => r.base@ == match home {
                Some(h) => h@,
                None => ""@,
            } && r.below@ == ".cache/huggingface/hub"@,
        },
{
    match hf_home {
        Some(h) => CacheDir { base: h.to_owned(), below: "hub".to_owned() },
        None => match hub_cache {
            Some(c) => CacheDir { base: c.to_owned(), below: "".to_owned() },
            None => {
                let base = match home {
                    Some(h) => h,
                    None => "",
                };
                CacheDir { base: base.to_owned(), below: ".cache/huggingface/hub".to_owned() }
            },
        },
    }
}

// ---------- The audio of a chapter ----------

/// The paragraphs that are spoken one after the other. A transcript without any
/// is an error.
pub fn spoken_paragraphs(t: &str) -> (r: AppResult<Vec<String>>)
    ensures
        match r {
            Ok(ps) => text::paragraphs(t@).len() > 0 && text::texts(ps@) == text::paragraphs(t@),
            Err(e) => text::paragraphs(t@).len() == 0 && (e matches AppError::Tts(m) && m@
                == "empty transcript"@),
        },
{
    let kept = paragraphs_of(chars_of(t).as_slice());
    assert(text::rows(kept@).len() == kept@.len());
    if kept.len() == 0 {
        return Err(AppError::Tts("empty transcript".to_owned()));
    }
    Ok(strings_of(&kept))
}

/// The silence behind the paragraph at `i`: longer behind the title and the
/// heading.
pub open spec fn gap_after(i: int) -> int {
    if i <= 1 {
        HEADING_GAP as int
    } else {
        PARAGRAPH_GAP as int
    }
}

/// The samples of silence behind the paragraph at `i`.
pub fn silence_after(i: usize) -> (r: usize)
    ensures
        r == gap_after(i as int),
{
    if i <= 1 {
        HEADING_GAP
    } else {
        PARAGRAPH_GAP
    }
}

/// So many samples of silence.
pub open spec fn silent<T>(silence: T, n: int) -> Seq<T> {
    Seq::new(n as nat, |i: int| silence)
}

/// The audio of a chapter: that of each paragraph, with silence behind it.
pub open spec fn laid_out<T>(paragraphs: Seq<Seq<T>>, silence: T) -> Seq<T>
    decreases paragraphs.len(),
{
    if paragraphs.len() == 0 {
        seq![]
    } else {
        laid_out(paragraphs.drop_last(), silence) + paragraphs.last() + silent(
            silence,
            gap_after(paragraphs.len() - 1),
        )
    }
}

/// The samples of some recordings as plain values.
pub open spec fn recordings<T>(v: Seq<Vec<T>>) -> Seq<Seq<T>> {
    v.map_values(|r: Vec<T>| r@)
}

/// Put the audio of a chapter together: the samples of its paragraphs, with
/// silence behind each.
pub fn lay_out<T: Copy>(paragraphs: &Vec<Vec<T>>, silence: T) -> (r: Vec<T>)
    ensures
        r@ == laid_out(recordings(paragraphs@), silence),
{
    let ghost ps = recordings(paragraphs@);
    let mut out: Vec<T> = Vec::new();
    for i in 0..paragraphs.len()
        invariant
            ps == recordings(paragraphs@),
            out@ == laid_out(ps.take(i as int), silence),
    {
        proof {
            assert(ps.take(i + 1).drop_last() =~= ps.take(i as int));
            assert(ps.take(i + 1).last() == paragraphs@[i as int]@);
        }
        let audio: &Vec<T> = &paragraphs[i];
        let ghost before = out@;
        for j in 0..audio.len()
            invariant
                out@ == before + audio@.take(j as int),
        {
            out.push(audio[j]);
            assert(out@ =~= before + audio@.take(j + 1));
        }
        let ghost spoken = out@;
        let n = silence_after(i);
        proof {
            assert(audio@.take(audio@.len() as int) =~= audio@);
            assert(spoken + silent(silence, 0) =~= spoken);
        }
        for j in 0..n
            invariant
                out@ == spoken + silent(silence, j as int),
        {
            out.push(silence);
            assert(out@ =~= spoken + silent(silence, j + 1));
        }
    }
    assert(ps.take(ps.len() as int) =~= ps);
    out
}

/// The arguments that encode a recording as MP3.
pub open spec fn encode_arguments(wav: Seq<char>, out: Seq<char>) -> Seq<Seq<char>> {
    seq!["-y"@, "-loglevel"@, "error"@, "-i"@, wav, "-b:a"@, "128k"@, out]
}

/// The arguments of the command that encodes a recording.
pub fn encode_args(wav: &str, out_path: &str) -> (r: Vec<String>)
    ensures
        text::texts(r@) == encode_arguments(wav@, out_path@),
{
    let mut out: Vec<String> = Vec::new();
    out.push("-y".to_owned());
    out.push("-loglevel".to_owned());
    out.push("error".to_owned());
    out.push("-i".to_owned());
    out.push(wav.to_owned());
    out.push("-b:a".to_owned());
    out.push("128k".to_owned());
    out.push(out_path.to_owned());
    assert(text::texts(out@) =~= encode_arguments(wav@, out_path@));
    out
}

// ---------- What is heard ----------

proof fn lemma_cut_at_space(s: Seq<char>, n: nat)
    requires
        n <= s.len(),
        forall|j: int| n <= j < s.len() ==> #[trigger] s[j] != ' ',
    ensures
        before_space(s, n).is_prefix_of(s),
        s.contains(' ') ==> before_space(s, n).len() < s.len() && s[before_space(s, n).len() as int]
            == ' ' && forall|j: int|
            before_space(s, n).len() < j < s.len() ==> #[trigger] s[j] != ' ',
        !s.contains(' ') ==> before_space(s, n) == s,
    decreases n,
{
    if n > 0 {
        if s[n - 1] == ' ' {
            assert(s.contains(' '));
        } else {
            lemma_cut_at_space(s, (n - 1) as nat);
        }
    }
}

/// Phonemes are spoken as they are, up to five hundred and ten of them. Of more
/// than that the beginning is spoken, up to the last space among the first five
/// hundred and ten, or all of these if there is none. Blank ones are silent.
pub proof fn phonemes_are_spoken_from_the_start(s: Seq<char>)
    ensures
        model_phonemes(s) is None <==> forall|k: int|
            0 <= k < s.len() ==> chars::white(#[trigger] s[k]),
        model_phonemes(s) is Some && s.len() <= 510 ==> model_phonemes(s) == Some(s),
        model_phonemes(s) is Some && s.len() > 510 ==> {
            let t = model_phonemes(s)->0;
            &&& t.is_prefix_of(s)
            &&& t.len() <= 510
            &&& t.len() < 510 ==> s[t.len() as int] == ' '
            &&& forall|j: int| t.len() < j < 510 ==> #[trigger] s[j] != ' '
        },
{
    text::lemma_trim_blank(s);
    if s.len() > 510 {
        let u = s.take(510);
        lemma_cut_at_space(u, u.len());
        let t = before_last_space(u);
        assert(t.len() < 510 ==> u[t.len() as int] == s[t.len() as int]);
        assert forall|j: int| t.len() < j < 510 implies #[trigger] s[j] != ' ' by {
            assert(u[j] == s[j]);
        }
    }
}

/// The model is loaded again exactly where another model or voice is wanted.
pub proof fn what_is_loaded_is_used_again(l: Loaded, repo: Seq<char>, voice: Seq<char>)
    ensures
        reload_needed(None, repo, voice),
        !reload_needed(Some(l), l.repo@, l.voice@),
        reload_needed(Some(l), repo, voice) ==> repo != l.repo@ || voice != l.voice@,
        repo != l.repo@ ==> reload_needed(Some(l), repo, voice),
        voice != l.voice@ ==> reload_needed(Some(l), repo, voice),
{
}

proof fn lemma_laid_out_prefix<T>(paragraphs: Seq<Seq<T>>, silence: T, i: int) -> (rest: Seq<T>)
    requires
        0 <= i <= paragraphs.len(),
    ensures
        laid_out(paragraphs, silence) == laid_out(paragraphs.take(i), silence) + rest,
    decreases paragraphs.len(),
{
    if i == paragraphs.len() {
        assert(paragraphs.take(i) =~= paragraphs);
        assert(laid_out(paragraphs, silence) =~= laid_out(paragraphs, silence) + Seq::<T>::empty());
        Seq::<T>::empty()
    } else {
        let front = paragraphs.drop_last();
        let less = lemma_laid_out_prefix(front, silence, i);
        assert(front.take(i) =~= paragraphs.take(i));
        let rest = less + paragraphs.last() + silent(silence, gap_after(paragraphs.len() - 1));
        assert(laid_out(paragraphs, silence) =~= laid_out(paragraphs.take(i), silence) + rest);
        rest
    }
}

/// Every paragraph is heard in full, behind those before it, and a pause after
/// it: 0.8 seconds after the two first ones, which are the titles of the book
/// and of the chapter, and 0.4 seconds after any other, at 24000 samples a
/// second.
pub proof fn paragraphs_are_heard_in_order<T>(paragraphs: Seq<Seq<T>>, silence: T, i: int)
    requires
        0 <= i < paragraphs.len(),
    ensures
        ({
            let all = laid_out(paragraphs, silence);
            let start = laid_out(paragraphs.take(i), silence).len() as int;
            let end = start + paragraphs[i].len();
            let pause: int = if i < 2 {
                19200
            } else {
                9600
            };
            &&& i == 0 ==> start == 0
            &&& end + pause == laid_out(paragraphs.take(i + 1), silence).len()
            &&& end + pause <= all.len()
            &&& all.subrange(start, end) == paragraphs[i]
            &&& forall|k: int| end <= k < end + pause ==> #[trigger] all[k] == silence
            &&& i + 1 == paragraphs.len() ==> all.len() == end + pause
        }),
{
    let all = laid_out(paragraphs, silence);
    let before = laid_out(paragraphs.take(i), silence);
    let here = laid_out(paragraphs.take(i + 1), silence);
    let rest = lemma_laid_out_prefix(paragraphs, silence, i + 1);
    assert(paragraphs.take(i + 1).drop_last() =~= paragraphs.take(i));
    assert(paragraphs.take(i + 1).last() == paragraphs[i]);
    let start = before.len() as int;
    let end = start + paragraphs[i].len();
    let gap = silent(silence, gap_after(i));
    assert(here == before + paragraphs[i] + gap);
    assert(all.subrange(start, end) =~= paragraphs[i]);
    assert forall|k: int| end <= k < end + gap.len() implies #[trigger] all[k] == silence by {
        assert(all[k] == here[k]);
        assert(here[k] == gap[k - end]);
    }
    if i + 1 == paragraphs.len() {
        assert(paragraphs.take(i + 1) =~= paragraphs);
    }
}

/// The command reads the recording and writes the audio file.
pub proof fn encoding_names_its_files(wav: Seq<char>, out: Seq<char>)
    ensures
        ({
            let args = encode_arguments(wav, out);
            &&& args.contains("-y"@)
            &&& exists|i: int|
                0 < i < args.len() && #[trigger] args[i] == wav && args[i - 1] == "-i"@
            &&& exists|i: int|
                0 < i < args.len() && #[trigger] args[i] == "128k"@ && args[i - 1] == "-b:a"@
            &&& args.last() == out
        }),
{
    let args = encode_arguments(wav, out);
    assert(args[0] == "-y"@);
    assert(args[4] == wav && args[3] == "-i"@);
    assert(args[6] == "128k"@ && args[5] == "-b:a"@);
}

/// Recordings are heard whole and in order.
pub proof fn recordings_are_seen_in_order<T>(v: Seq<Vec<T>>, i: int)
    requires
        0 <= i < v.len(),
    ensures
        recordings(v).len() == v.len(),
        recordings(v)[i] == v[i]@,
{
}

} // verus!
