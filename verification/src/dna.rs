//! Agent DNA: the configuration of an agent and the parser of `.claw-dna`
//! files, a TOML-like list of `key = value` lines.
use vstd::prelude::*;

verus! {

/// GPU settings of an agent.
#[derive(Debug, Clone)]
pub struct GpuConfig {
    pub persistent_kernel: bool,
    pub cell_agent_count: usize,
    pub muscle_fiber_count: usize,
    pub ramify_enabled: bool,
    pub smart_crdt: bool,
}

/// Fleet protocol settings of an agent.
#[derive(Debug, Clone)]
pub struct FleetConfig {
    pub a2a_enabled: bool,
    pub a2ui_enabled: bool,
    pub heartbeat_s: usize,
}

/// An agent's configuration.
///
/// `personality` holds the personality traits in a fixed order
/// (verbosity, curiosity, caution, persistence), each with its value written
/// as a decimal floating-point literal; `capabilities` holds the named
/// integer capabilities.
#[derive(Debug, Clone)]
pub struct DnaConfig {
    pub name: String,
    pub vessel_class: String,
    pub personality: Vec<(String, String)>,
    pub capabilities: Vec<(String, usize)>,
    pub gpu: GpuConfig,
    pub fleet: FleetConfig,
}

/// The mathematical content of a `DnaConfig`.
pub struct DnaConfigView {
    pub name: Seq<char>,
    pub vessel_class: Seq<char>,
    pub personality: Seq<(Seq<char>, Seq<char>)>,
    pub capabilities: Seq<(Seq<char>, usize)>,
    pub gpu: GpuConfig,
    pub fleet: FleetConfig,
}

impl View for DnaConfig {
    type V = DnaConfigView;

    open spec fn view(&self) -> DnaConfigView {
        DnaConfigView {
            name: self.name@,
            vessel_class: self.vessel_class@,
            personality: self.personality@.map_values(|p: (String, String)| (p.0@, p.1@)),
            capabilities: self.capabilities@.map_values(|p: (String, usize)| (p.0@, p.1)),
            gpu: self.gpu,
            fleet: self.fleet,
        }
    }
}

/// The configuration of an agent that its DNA does not change: named
/// "agent", a scout, with middling personality traits, a 4096-token
/// context, and every GPU and fleet feature on.
pub open spec fn default_dna() -> DnaConfigView {
    DnaConfigView {
        name: "agent"@,
        vessel_class: "scout"@,
        personality: seq![
            ("verbosity"@, "0.7"@),
            ("curiosity"@, "0.8"@),
            ("caution"@, "0.6"@),
            ("persistence"@, "0.9"@),
        ],
        capabilities: seq![
            ("max_context_tokens"@, 4096usize),
            ("max_output_tokens"@, 1024usize),
            ("temperature_x100"@, 70usize),
            ("top_p_x100"@, 90usize),
        ],
        gpu: GpuConfig {
            persistent_kernel: true,
            cell_agent_count: 64,
            muscle_fiber_count: 4,
            ramify_enabled: true,
            smart_crdt: true,
        },
        fleet: FleetConfig { a2a_enabled: true, a2ui_enabled: true, heartbeat_s: 30 },
    }
}

impl Default for DnaConfig {
    fn default() -> (r: Self)
        ensures
            r@ == default_dna(),
    {
        let personality = vec![
            ("verbosity".to_owned(), "0.7".to_owned()),
            ("curiosity".to_owned(), "0.8".to_owned()),
            ("caution".to_owned(), "0.6".to_owned()),
            ("persistence".to_owned(), "0.9".to_owned()),
        ];
        let capabilities = vec![
            ("max_context_tokens".to_owned(), 4096usize),
            ("max_output_tokens".to_owned(), 1024usize),
            ("temperature_x100".to_owned(), 70usize),
            ("top_p_x100".to_owned(), 90usize),
        ];
        let r = DnaConfig {
            name: "agent".to_owned(),
            vessel_class: "scout".to_owned(),
            personality,
            capabilities,
            gpu: GpuConfig {
                persistent_kernel: true,
                cell_agent_count: 64,
                muscle_fiber_count: 4,
                ramify_enabled: true,
                smart_crdt: true,
            },
            fleet: FleetConfig { a2a_enabled: true, a2ui_enabled: true, heartbeat_s: 30 },
        };
        assert(r@.personality =~= default_dna().personality);
        assert(r@.capabilities =~= default_dna().capabilities);
        r
    }
}

// ---------------------------------------------------------------------------
// Characters
/// White space as `char::is_whitespace` has it: the Unicode `White_Space`
/// characters.
pub open spec fn is_whitespace(c: char) -> bool {
    let n = c as u32;
    ||| n == 0x20
    ||| 0x09 <= n <= 0x0D
    ||| n == 0x85
    ||| n == 0xA0
    ||| n == 0x1680
    ||| 0x2000 <= n <= 0x200A
    ||| n == 0x2028
    ||| n == 0x2029
    ||| n == 0x202F
    ||| n == 0x205F
    ||| n == 0x3000
}

/// An ASCII decimal digit.
pub open spec fn is_digit(c: char) -> bool {
    0x30 <= c as u32 <= 0x39
}

/// A sign, `+` or `-`.
pub open spec fn is_sign(c: char) -> bool {
    c == '+' || c == '-'
}

/// `c` equals the lower-case ASCII letter `lower`, ignoring ASCII case.
pub open spec fn ascii_ieq(c: char, lower: char) -> bool {
    c == lower || c as u32 + 32 == lower as u32
}

/// The characters stripped by a trim: white space, or (with `quotes`)
/// double quotes.
pub open spec fn strips(c: char, quotes: bool) -> bool {
    if quotes {
        c == '"'
    } else {
        is_whitespace(c)
    }
}

// ---------------------------------------------------------------------------
// Windows `s[lo..hi]` of the file's characters
/// The first position at or after `i`, and before `hi`, whose character is
/// not stripped; `hi` when there is none.
pub open spec fn skip_fwd(s: Seq<char>, i: int, hi: int, quotes: bool) -> int
    decreases hi - i,
{
    if i < hi && strips(s[i], quotes) {
        skip_fwd(s, i + 1, hi, quotes)
    } else {
        i
    }
}

/// The end of `s[lo..j]` once the stripped characters at its end are
/// dropped.
pub open spec fn skip_back(s: Seq<char>, lo: int, j: int, quotes: bool) -> int
    decreases j - lo,
{
    if j > lo && strips(s[j - 1], quotes) {
        skip_back(s, lo, j - 1, quotes)
    } else {
        j
    }
}

/// `s[lo..hi]` starts with `p`.
pub open spec fn matches_at(s: Seq<char>, lo: int, hi: int, p: Seq<char>) -> bool {
    &&& lo + p.len() <= hi
    &&& forall|k: int| 0 <= k < p.len() ==> #[trigger] s[lo + k] == p[k]
}

/// `s[lo..hi]` is the word `w` (lower-case ASCII letters), ignoring ASCII
/// case.
pub open spec fn word_ieq(s: Seq<char>, lo: int, hi: int, w: Seq<char>) -> bool {
    &&& hi - lo == w.len()
    &&& forall|k: int| 0 <= k < w.len() ==> ascii_ieq(#[trigger] s[lo + k], w[k])
}

/// The first position at or after `i`, and before `hi`, that holds an
/// exponent mark `e` or `E`; `hi` when there is none.
pub open spec fn exp_pos(s: Seq<char>, i: int, hi: int) -> int
    decreases hi - i,
{
    if i < hi && !(s[i] == 'e' || s[i] == 'E') {
        exp_pos(s, i + 1, hi)
    } else {
        i
    }
}

/// `s[lo..hi]` is a mantissa: digits with at most one decimal point, and at
/// least one digit.
pub open spec fn mantissa_ok(s: Seq<char>, lo: int, hi: int) -> bool {
    &&& forall|k: int| lo <= k < hi ==> is_digit(#[trigger] s[k]) || s[k] == '.'
    &&& forall|k1: int, k2: int|
        lo <= k1 < hi && lo <= k2 < hi && #[trigger] s[k1] == '.' && #[trigger] s[k2] == '.' ==> k1 == k2
    &&& exists|k: int| lo <= k < hi && is_digit(#[trigger] s[k])
}

/// `s[lo..hi]` is the digits of an exponent, after its mark: an optional
/// sign and at least one digit.
pub open spec fn exponent_ok(s: Seq<char>, lo: int, hi: int) -> bool {
    let d = if lo < hi && is_sign(s[lo]) {
        lo + 1
    } else {
        lo
    };
    &&& d < hi
    &&& forall|k: int| d <= k < hi ==> is_digit(#[trigger] s[k])
}

/// `s[lo..hi]` is accepted by `f64::from_str`: an optional sign, then
/// `inf`, `infinity` or `nan` in any ASCII case, or a mantissa with an
/// optional exponent (`e` or `E`, an optional sign, digits).
pub open spec fn float_literal(s: Seq<char>, lo: int, hi: int) -> bool {
    let d = if lo < hi && is_sign(s[lo]) {
        lo + 1
    } else {
        lo
    };
    let e = exp_pos(s, d, hi);
    ||| word_ieq(s, d, hi, "inf"@)
    ||| word_ieq(s, d, hi, "infinity"@)
    ||| word_ieq(s, d, hi, "nan"@)
    ||| (mantissa_ok(s, d, e) && (e == hi || exponent_ok(s, e + 1, hi)))
}

/// The number written by the decimal digits `s[lo..hi]`.
pub open spec fn digits_value(s: Seq<char>, lo: int, hi: int) -> nat
    decreases hi - lo,
{
    if hi <= lo {
        0
    } else {
        digits_value(s, lo, hi - 1) * 10 + ((s[hi - 1] as u32) - 0x30) as nat
    }
}

/// What `usize::from_str` makes of `s[lo..hi]`: an optional `+` then at
/// least one decimal digit, of a value that fits; `None` otherwise.
pub open spec fn usize_literal(s: Seq<char>, lo: int, hi: int) -> Option<usize> {
    let d = if lo < hi && s[lo] == '+' {
        lo + 1
    } else {
        lo
    };
    if d < hi && (forall|k: int| d <= k < hi ==> is_digit(#[trigger] s[k])) && digits_value(s, d, hi)
        <= usize::MAX {
        Some(digits_value(s, d, hi) as usize)
    } else {
        None
    }
}

// ---------------------------------------------------------------------------
// The file
/// `cfg` after the line `s[lo..hi]` of a DNA file.
///
/// The line is trimmed of white space; an empty line or one that starts
/// with `#` changes nothing. A line `name = V` or `vessel_class = V` sets
/// that field to `V` stripped of double quotes at both ends. A line
/// `verbosity = V`, `curiosity = V` or `caution = V` sets that trait to `V`
/// when `V` is a floating-point literal. A line `cell_agent_count = V` sets
/// the GPU agent count to `V` when `V` is a `usize` literal. Any other line
/// changes nothing.
pub open spec fn apply_line(cfg: DnaConfigView, s: Seq<char>, lo: int, hi: int) -> DnaConfigView {
    let a = skip_fwd(s, lo, hi, false);
    let b = skip_back(s, a, hi, false);
    if a == b || s[a] == '#' {
        cfg
    } else if matches_at(s, a, b, "name = "@) {
        let qa = skip_fwd(s, a + "name = "@.len(), b, true);
        DnaConfigView { name: s.subrange(qa, skip_back(s, qa, b, true)), ..cfg }
    } else if matches_at(s, a, b, "vessel_class = "@) {
        let qa = skip_fwd(s, a + "vessel_class = "@.len(), b, true);
        DnaConfigView { vessel_class: s.subrange(qa, skip_back(s, qa, b, true)), ..cfg }
    } else if matches_at(s, a, b, "verbosity = "@) {
        let v = a + "verbosity = "@.len();
        if float_literal(s, v, b) {
            DnaConfigView { personality: cfg.personality.update(0, ("verbosity"@, s.subrange(v, b))), ..cfg }
        } else {
            cfg
        }
    } else if matches_at(s, a, b, "curiosity = "@) {
        let v = a + "curiosity = "@.len();
        if float_literal(s, v, b) {
            DnaConfigView { personality: cfg.personality.update(1, ("curiosity"@, s.subrange(v, b))), ..cfg }
        } else {
            cfg
        }
    } else if matches_at(s, a, b, "caution = "@) {
        let v = a + "caution = "@.len();
        if float_literal(s, v, b) {
            DnaConfigView { personality: cfg.personality.update(2, ("caution"@, s.subrange(v, b))), ..cfg }
        } else {
            cfg
        }
    } else if matches_at(s, a, b, "cell_agent_count = "@) {
        match usize_literal(s, a + "cell_agent_count = "@.len(), b) {
            Some(n) => DnaConfigView { gpu: GpuConfig { cell_agent_count: n, ..cfg.gpu }, ..cfg },
            None => cfg,
        }
    } else {
        cfg
    }
}

proof fn lemma_skip_fwd_bounds(s: Seq<char>, i: int, hi: int, quotes: bool)
    requires
        i <= hi,
    ensures
        i <= skip_fwd(s, i, hi, quotes) <= hi,
        forall|k: int| i <= k < skip_fwd(s, i, hi, quotes) ==> strips(#[trigger] s[k], quotes),
        skip_fwd(s, i, hi, quotes) < hi ==> !strips(s[skip_fwd(s, i, hi, quotes)], quotes),
    decreases hi - i,
{
    if i < hi && strips(s[i], quotes) {
        lemma_skip_fwd_bounds(s, i + 1, hi, quotes);
    }
}

proof fn lemma_skip_fwd_all(s: Seq<char>, i: int, hi: int, quotes: bool)
    requires
        i <= hi,
        forall|k: int| i <= k < hi ==> strips(#[trigger] s[k], quotes),
    ensures
        skip_fwd(s, i, hi, quotes) == hi,
    decreases hi - i,
{
    if i < hi {
        assert(strips(s[i], quotes));
        lemma_skip_fwd_all(s, i + 1, hi, quotes);
    }
}

proof fn lemma_skip_fwd_stops(s: Seq<char>, i: int, q: int, hi: int, quotes: bool)
    requires
        i <= q <= hi,
        skip_fwd(s, i, q, quotes) < q,
    ensures
        skip_fwd(s, i, hi, quotes) == skip_fwd(s, i, q, quotes),
    decreases q - i,
{
    if strips(s[i], quotes) {
        lemma_skip_fwd_stops(s, i + 1, q, hi, quotes);
    }
}

proof fn lemma_skip_fwd_leading(s: Seq<char>, lo: int, p: int, hi: int, quotes: bool)
    requires
        lo <= p <= hi,
        forall|k: int| lo <= k < p ==> strips(#[trigger] s[k], quotes),
    ensures
        skip_fwd(s, lo, hi, quotes) == skip_fwd(s, p, hi, quotes),
    decreases p - lo,
{
    if lo < p {
        assert(strips(s[lo], quotes));
        lemma_skip_fwd_leading(s, lo + 1, p, hi, quotes);
    }
}

proof fn lemma_skip_back_trailing(s: Seq<char>, lo: int, q: int, hi: int, quotes: bool)
    requires
        lo <= q <= hi,
        forall|k: int| q <= k < hi ==> strips(#[trigger] s[k], quotes),
    ensures
        skip_back(s, lo, hi, quotes) == skip_back(s, lo, q, quotes),
    decreases hi - q,
{
    if q < hi {
        assert(strips(s[hi - 1], quotes));
        lemma_skip_back_trailing(s, lo, q, hi - 1, quotes);
    }
}

/// White space at the end of a line (such as the `\r` of a CRLF line end)
/// never changes what the line does.
pub proof fn lemma_line_trailing_whitespace(cfg: DnaConfigView, s: Seq<char>, lo: int, q: int, hi: int)
    requires
        lo <= q <= hi,
        forall|k: int| q <= k < hi ==> is_whitespace(#[trigger] s[k]),
    ensures
        apply_line(cfg, s, lo, hi) == apply_line(cfg, s, lo, q),
{
    let a2 = skip_fwd(s, lo, q, false);
    lemma_skip_fwd_bounds(s, lo, q, false);
    if a2 < q {
        lemma_skip_fwd_stops(s, lo, q, hi, false);
        lemma_skip_back_trailing(s, a2, q, hi, false);
    } else {
        assert forall|k: int| lo <= k < hi implies strips(#[trigger] s[k], false) by {
            if k >= q {
                assert(is_whitespace(s[k]));
            }
        }
        lemma_skip_fwd_all(s, lo, hi, false);
    }
}

/// White space at the start of a line never changes what the line does.
pub proof fn lemma_line_leading_whitespace(cfg: DnaConfigView, s: Seq<char>, lo: int, p: int, hi: int)
    requires
        lo <= p <= hi,
        forall|k: int| lo <= k < p ==> is_whitespace(#[trigger] s[k]),
    ensures
        apply_line(cfg, s, lo, hi) == apply_line(cfg, s, p, hi),
{
    assert forall|k: int| lo <= k < p implies strips(#[trigger] s[k], false) by {
        assert(is_whitespace(s[k]));
    }
    lemma_skip_fwd_leading(s, lo, p, hi, false);
}

/// A line `s[lo..hi]` that is `s[p..q]` framed by white space, where
/// `s[p..q]` starts with `prefix` (whose first character is not white
/// space) and ends in a character that is not white space, is handled as
/// `s[p..q]`, which is its own trim.
proof fn lemma_framed_line(
    cfg: DnaConfigView,
    s: Seq<char>,
    lo: int,
    p: int,
    q: int,
    hi: int,
    prefix: Seq<char>,
)
    requires
        lo <= p,
        p + prefix.len() < q <= hi,
        prefix.len() > 0,
        !is_whitespace(prefix[0]),
        forall|k: int| lo <= k < p ==> is_whitespace(#[trigger] s[k]),
        forall|k: int| q <= k < hi ==> is_whitespace(#[trigger] s[k]),
        forall|k: int| 0 <= k < prefix.len() ==> #[trigger] s[p + k] == prefix[k],
        !is_whitespace(s[q - 1]),
    ensures
        apply_line(cfg, s, lo, hi) == apply_line(cfg, s, p, q),
        skip_fwd(s, p, q, false) == p,
        skip_back(s, p, q, false) == q,
        matches_at(s, p, q, prefix),
{
    lemma_line_trailing_whitespace(cfg, s, lo, q, hi);
    lemma_line_leading_whitespace(cfg, s, lo, p, q);
    assert(s[p + 0] == prefix[0]);
}

/// A line `verbosity = V`, with any white space around it (a CRLF end
/// included), sets the verbosity to `V` when `V` is a floating-point
/// literal, and changes nothing else.
pub proof fn lemma_verbosity_line(cfg: DnaConfigView, s: Seq<char>, lo: int, p: int, q: int, hi: int)
    requires
        lo <= p,
        p + "verbosity = "@.len() < q <= hi,
        forall|k: int| lo <= k < p ==> is_whitespace(#[trigger] s[k]),
        forall|k: int| q <= k < hi ==> is_whitespace(#[trigger] s[k]),
        forall|k: int| 0 <= k < "verbosity = "@.len() ==> #[trigger] s[p + k] == "verbosity = "@[k],
        !is_whitespace(s[q - 1]),
        float_literal(s, p + "verbosity = "@.len(), q),
    ensures
        apply_line(cfg, s, lo, hi) == (DnaConfigView {
            personality: cfg.personality.update(0, ("verbosity"@, s.subrange(p + "verbosity = "@.len(), q))),
            ..cfg
        }),
{
    reveal_strlit("verbosity = ");
    reveal_strlit("name = ");
    reveal_strlit("vessel_class = ");
    lemma_framed_line(cfg, s, lo, p, q, hi, "verbosity = "@);
    assert(s[p + 0] == 'v');
    assert(s[p + 2] == 'r');
}

/// A line `curiosity = V`, with any white space around it, sets the
/// curiosity to `V` when `V` is a floating-point literal, and changes
/// nothing else.
pub proof fn lemma_curiosity_line(cfg: DnaConfigView, s: Seq<char>, lo: int, p: int, q: int, hi: int)
    requires
        lo <= p,
        p + "curiosity = "@.len() < q <= hi,
        forall|k: int| lo <= k < p ==> is_whitespace(#[trigger] s[k]),
        forall|k: int| q <= k < hi ==> is_whitespace(#[trigger] s[k]),
        forall|k: int| 0 <= k < "curiosity = "@.len() ==> #[trigger] s[p + k] == "curiosity = "@[k],
        !is_whitespace(s[q - 1]),
        float_literal(s, p + "curiosity = "@.len(), q),
    ensures
        apply_line(cfg, s, lo, hi) == (DnaConfigView {
            personality: cfg.personality.update(1, ("curiosity"@, s.subrange(p + "curiosity = "@.len(), q))),
            ..cfg
        }),
{
    reveal_strlit("curiosity = ");
    reveal_strlit("name = ");
    reveal_strlit("vessel_class = ");
    reveal_strlit("verbosity = ");
    lemma_framed_line(cfg, s, lo, p, q, hi, "curiosity = "@);
    assert(s[p + 0] == 'c');
}

/// A line `caution = V`, with any white space around it, sets the caution
/// to `V` when `V` is a floating-point literal, and changes nothing else.
pub proof fn lemma_caution_line(cfg: DnaConfigView, s: Seq<char>, lo: int, p: int, q: int, hi: int)
    requires
        lo <= p,
        p + "caution = "@.len() < q <= hi,
        forall|k: int| lo <= k < p ==> is_whitespace(#[trigger] s[k]),
        forall|k: int| q <= k < hi ==> is_whitespace(#[trigger] s[k]),
        forall|k: int| 0 <= k < "caution = "@.len() ==> #[trigger] s[p + k] == "caution = "@[k],
        !is_whitespace(s[q - 1]),
        float_literal(s, p + "caution = "@.len(), q),
    ensures
        apply_line(cfg, s, lo, hi) == (DnaConfigView {
            personality: cfg.personality.update(2, ("caution"@, s.subrange(p + "caution = "@.len(), q))),
            ..cfg
        }),
{
    reveal_strlit("caution = ");
    reveal_strlit("name = ");
    reveal_strlit("vessel_class = ");
    reveal_strlit("verbosity = ");
    reveal_strlit("curiosity = ");
    lemma_framed_line(cfg, s, lo, p, q, hi, "caution = "@);
    assert(s[p + 0] == 'c');
    assert(s[p + 1] == 'a');
}

/// A line `name = V`, with any white space around it, sets the name to `V`
/// stripped of the double quotes at both ends (here `V` is
/// `s[v..q]`, made of quotes `s[v..w1]`, a word `s[w1..w2]` that neither
/// starts nor ends with a quote, and quotes `s[w2..q]`).
pub proof fn lemma_name_line(cfg: DnaConfigView, s: Seq<char>, lo: int, p: int, w1: int, w2: int, q: int, hi: int)
    requires
        lo <= p,
        p + "name = "@.len() <= w1 < w2 <= q <= hi,
        forall|k: int| lo <= k < p ==> is_whitespace(#[trigger] s[k]),
        forall|k: int| q <= k < hi ==> is_whitespace(#[trigger] s[k]),
        forall|k: int| 0 <= k < "name = "@.len() ==> #[trigger] s[p + k] == "name = "@[k],
        forall|k: int| p + "name = "@.len() <= k < w1 ==> #[trigger] s[k] == '"',
        forall|k: int| w2 <= k < q ==> #[trigger] s[k] == '"',
        s[w1] != '"',
        s[w2 - 1] != '"',
        !is_whitespace(s[q - 1]),
    ensures
        apply_line(cfg, s, lo, hi) == (DnaConfigView { name: s.subrange(w1, w2), ..cfg }),
{
    reveal_strlit("name = ");
    lemma_framed_line(cfg, s, lo, p, q, hi, "name = "@);
    let v = p + "name = "@.len();
    lemma_skip_fwd_leading(s, v, w1, q, true);
    lemma_skip_back_trailing(s, w1, w2, q, true);
    assert(s[p + 0] == 'n');
}

/// A line `vessel_class = V`, with any white space around it, sets the
/// vessel class to `V` stripped of the double quotes at both ends (`V` as
/// for `lemma_name_line`).
pub proof fn lemma_vessel_class_line(
    cfg: DnaConfigView,
    s: Seq<char>,
    lo: int,
    p: int,
    w1: int,
    w2: int,
    q: int,
    hi: int,
)
    requires
        lo <= p,
        p + "vessel_class = "@.len() <= w1 < w2 <= q <= hi,
        forall|k: int| lo <= k < p ==> is_whitespace(#[trigger] s[k]),
        forall|k: int| q <= k < hi ==> is_whitespace(#[trigger] s[k]),
        forall|k: int| 0 <= k < "vessel_class = "@.len() ==> #[trigger] s[p + k] == "vessel_class = "@[k],
        forall|k: int| p + "vessel_class = "@.len() <= k < w1 ==> #[trigger] s[k] == '"',
        forall|k: int| w2 <= k < q ==> #[trigger] s[k] == '"',
        s[w1] != '"',
        s[w2 - 1] != '"',
        !is_whitespace(s[q - 1]),
    ensures
        apply_line(cfg, s, lo, hi) == (DnaConfigView { vessel_class: s.subrange(w1, w2), ..cfg }),
{
    reveal_strlit("vessel_class = ");
    reveal_strlit("name = ");
    lemma_framed_line(cfg, s, lo, p, q, hi, "vessel_class = "@);
    let v = p + "vessel_class = "@.len();
    lemma_skip_fwd_leading(s, v, w1, q, true);
    lemma_skip_back_trailing(s, w1, w2, q, true);
    assert(s[p + 0] == 'v');
}

/// A line `cell_agent_count = V`, with any white space around it, sets the
/// GPU agent count to the number `V` when `V` is a `usize` literal, and
/// changes nothing otherwise.
pub proof fn lemma_cell_agent_count_line(cfg: DnaConfigView, s: Seq<char>, lo: int, p: int, q: int, hi: int)
    requires
        lo <= p,
        p + "cell_agent_count = "@.len() < q <= hi,
        forall|k: int| lo <= k < p ==> is_whitespace(#[trigger] s[k]),
        forall|k: int| q <= k < hi ==> is_whitespace(#[trigger] s[k]),
        forall|k: int| 0 <= k < "cell_agent_count = "@.len() ==> #[trigger] s[p + k] == "cell_agent_count = "@[k],
        !is_whitespace(s[q - 1]),
    ensures
        apply_line(cfg, s, lo, hi) == match usize_literal(s, p + "cell_agent_count = "@.len(), q) {
            Some(n) => DnaConfigView { gpu: GpuConfig { cell_agent_count: n, ..cfg.gpu }, ..cfg },
            None => cfg,
        },
{
    reveal_strlit("cell_agent_count = ");
    reveal_strlit("name = ");
    reveal_strlit("vessel_class = ");
    reveal_strlit("verbosity = ");
    reveal_strlit("curiosity = ");
    reveal_strlit("caution = ");
    lemma_framed_line(cfg, s, lo, p, q, hi, "cell_agent_count = "@);
    assert(s[p + 0] == 'c');
    assert(s[p + 1] == 'e');
}

/// How `usize` literals read: digits give their decimal value when it fits;
/// a leading `+` is allowed before digits; an empty text, a lone sign, a
/// leading `-` or any non-digit gives nothing.
pub proof fn lemma_usize_literal_forms(s: Seq<char>, lo: int, hi: int)
    requires
        lo <= hi,
    ensures
        lo == hi ==> usize_literal(s, lo, hi) is None,
        lo < hi && s[lo] == '-' ==> usize_literal(s, lo, hi) is None,
        lo + 1 == hi && s[lo] == '+' ==> usize_literal(s, lo, hi) is None,
        lo < hi && s[lo] == '+' && lo + 1 < hi && is_digit(s[lo + 1]) ==> usize_literal(s, lo, hi)
            == usize_literal(s, lo + 1, hi),
        (exists|k: int| lo < k < hi && !is_digit(#[trigger] s[k])) ==> usize_literal(s, lo, hi) is None,
        lo < hi && (forall|k: int| lo <= k < hi ==> is_digit(#[trigger] s[k])) ==> usize_literal(s, lo, hi)
            == if digits_value(s, lo, hi) <= usize::MAX {
            Some(digits_value(s, lo, hi) as usize)
        } else {
            None::<usize>
        },
{
    if lo < hi && s[lo] == '-' {
        assert(!is_digit(s[lo]));
    }
}

/// A floating-point literal holds no white space: a value followed by a
/// stray `\r` or space is not a literal on its own.
pub proof fn lemma_float_literal_has_no_whitespace(s: Seq<char>, lo: int, hi: int, w: int)
    requires
        lo <= w < hi,
        is_whitespace(s[w]),
    ensures
        !float_literal(s, lo, hi),
{
    reveal_strlit("inf");
    reveal_strlit("infinity");
    reveal_strlit("nan");
    let d = if lo < hi && is_sign(s[lo]) {
        lo + 1
    } else {
        lo
    };
    assert(!is_sign(s[w]));
    assert(!is_digit(s[w]) && s[w] != '.');
    assert(s[w] != 'e' && s[w] != 'E');
    assert(d <= w);
    let k = w - d;
    if word_ieq(s, d, hi, "inf"@) {
        assert(ascii_ieq(s[d + k], "inf"@[k]));
    }
    if word_ieq(s, d, hi, "infinity"@) {
        assert(ascii_ieq(s[d + k], "infinity"@[k]));
    }
    if word_ieq(s, d, hi, "nan"@) {
        assert(ascii_ieq(s[d + k], "nan"@[k]));
    }
    let e = exp_pos(s, d, hi);
    lemma_exp_pos_bounds(s, d, hi);
    if w < e {
        assert(!mantissa_ok(s, d, e));
    } else if w > e {
        if e < hi && exponent_ok(s, e + 1, hi) {
            assert(is_digit(s[w]));
        }
    }
}

proof fn lemma_exp_pos_bounds(s: Seq<char>, i: int, hi: int)
    requires
        i <= hi,
    ensures
        i <= exp_pos(s, i, hi) <= hi,
        exp_pos(s, i, hi) < hi ==> (s[exp_pos(s, i, hi)] == 'e' || s[exp_pos(s, i, hi)] == 'E'),
    decreases hi - i,
{
    if i < hi && !(s[i] == 'e' || s[i] == 'E') {
        lemma_exp_pos_bounds(s, i + 1, hi);
    }
}

/// A blank line, or one whose first character after white space is `#`,
/// changes nothing.
pub proof fn lemma_blank_or_comment_line(cfg: DnaConfigView, s: Seq<char>, lo: int, p: int, hi: int)
    requires
        lo <= p <= hi,
        forall|k: int| lo <= k < p ==> is_whitespace(#[trigger] s[k]),
        p == hi || s[p] == '#',
    ensures
        apply_line(cfg, s, lo, hi) == cfg,
{
    lemma_line_leading_whitespace(cfg, s, lo, p, hi);
    if p < hi {
        assert(!is_whitespace(s[p]));
        lemma_skip_back_bounds(s, p, hi, false);
    }
}

proof fn lemma_skip_back_bounds(s: Seq<char>, lo: int, j: int, quotes: bool)
    requires
        lo <= j,
    ensures
        lo <= skip_back(s, lo, j, quotes) <= j,
    decreases j - lo,
{
    if j > lo && strips(s[j - 1], quotes) {
        lemma_skip_back_bounds(s, lo, j - 1, quotes);
    }
}

proof fn lemma_line_end_at(s: Seq<char>, i: int, e: int)
    requires
        0 <= i <= e <= s.len(),
        forall|k: int| i <= k < e ==> #[trigger] s[k] != '\n',
        e == s.len() || s[e] == '\n',
    ensures
        line_end(s, i) == e,
    decreases e - i,
{
    if i < e {
        assert(s[i] != '\n');
        lemma_line_end_at(s, i + 1, e);
    }
}

/// A file is read line by line: the first line (up to its newline) acts on
/// the configuration, then the rest of the file on the result.
pub proof fn lemma_parse_first_line(cfg: DnaConfigView, s: Seq<char>, i: int, e: int)
    requires
        0 <= i <= e < s.len(),
        s[e] == '\n',
        forall|k: int| i <= k < e ==> #[trigger] s[k] != '\n',
    ensures
        parse_from(cfg, s, i) == parse_from(apply_line(cfg, s, i, e), s, e + 1),
{
    lemma_line_end_at(s, i, e);
}

/// A file without a newline is one line, acting on the default
/// configuration.
pub proof fn lemma_parse_single_line(s: Seq<char>)
    requires
        forall|k: int| 0 <= k < s.len() ==> #[trigger] s[k] != '\n',
    ensures
        parse_dna(s) == apply_line(default_dna(), s, 0, s.len() as int),
{
    lemma_line_end_at(s, 0, s.len() as int);
}

/// The end of the line that starts at `i`: the position of the next
/// newline, or the end of `s`.
pub open spec fn line_end(s: Seq<char>, i: int) -> int
    decreases s.len() - i,
{
    if 0 <= i < s.len() && s[i] != '\n' {
        line_end(s, i + 1)
    } else {
        i
    }
}

/// A line ends at or after its start and no later than the text.
pub proof fn lemma_line_end_bounds(s: Seq<char>, i: int)
    requires
        0 <= i <= s.len(),
    ensures
        i <= line_end(s, i) <= s.len(),
    decreases s.len() - i,
{
    if i < s.len() && s[i] != '\n' {
        lemma_line_end_bounds(s, i + 1);
    }
}

/// `cfg` after the lines of `s` from position `i` on (lines are separated
/// by `\n`; the `\r` of a `\r\n` falls to the trim of its line).
pub open spec fn parse_from(cfg: DnaConfigView, s: Seq<char>, i: int) -> DnaConfigView
    decreases s.len() - i,
{
    if 0 <= i <= s.len() {
        let e = line_end(s, i);
        let next = apply_line(cfg, s, i, e);
        if e < s.len() {
            proof {
                lemma_line_end_bounds(s, i);
            }
            parse_from(next, s, e + 1)
        } else {
            next
        }
    } else {
        cfg
    }
}

/// The configuration that a DNA file of characters `s` describes: the
/// default configuration, changed by each line in turn.
pub open spec fn parse_dna(s: Seq<char>) -> DnaConfigView {
    parse_from(default_dna(), s, 0)
}

/// `cfg` differs from the default configuration at most in its name, vessel
/// class, the values of its verbosity, curiosity and caution, and its GPU
/// agent count.
pub open spec fn only_tunables_differ(cfg: DnaConfigView) -> bool {
    let d = default_dna();
    &&& cfg.capabilities == d.capabilities
    &&& cfg.fleet == d.fleet
    &&& cfg.gpu == GpuConfig { cell_agent_count: cfg.gpu.cell_agent_count, ..d.gpu }
    &&& cfg.personality.len() == d.personality.len()
    &&& forall|j: int| 0 <= j < 4 ==> (#[trigger] cfg.personality[j]).0 == d.personality[j].0
    &&& cfg.personality[3] == d.personality[3]
}

proof fn lemma_parse_from_tunables(cfg: DnaConfigView, s: Seq<char>, i: int)
    requires
        only_tunables_differ(cfg),
    ensures
        only_tunables_differ(parse_from(cfg, s, i)),
    decreases s.len() - i,
{
    if 0 <= i <= s.len() {
        let e = line_end(s, i);
        let next = apply_line(cfg, s, i, e);
        assert(only_tunables_differ(next));
        if e < s.len() {
            lemma_line_end_bounds(s, i);
            lemma_parse_from_tunables(next, s, e + 1);
        }
    }
}

/// A DNA file sets only an agent's name, vessel class, verbosity,
/// curiosity, caution and GPU agent count: its capabilities, fleet settings,
/// persistence and other GPU settings are always the defaults.
pub proof fn lemma_parse_changes_only_tunables(s: Seq<char>)
    ensures
        only_tunables_differ(parse_dna(s)),
{
    lemma_parse_from_tunables(default_dna(), s, 0);
}

// ---------------------------------------------------------------------------
// Executable scanning
fn chars_of(s: &str) -> (r: Vec<char>)
    ensures
        r@ == s@,
{
    broadcast use vstd::string::group_string_axioms;

    let mut r: Vec<char> = Vec::new();
    for c in it: s.chars()
        invariant
            r@ == it.seq().take(it.index() as int),
    {
        r.push(c);
    }
    r
}

fn is_ws(c: char) -> (r: bool)
    ensures
        r == is_whitespace(c),
{
    let n = c as u32;
    n == 0x20 || (0x09 <= n && n <= 0x0D) || n == 0x85 || n == 0xA0 || n == 0x1680 || (0x2000 <= n
        && n <= 0x200A) || n == 0x2028 || n == 0x2029 || n == 0x202F || n == 0x205F || n == 0x3000
}

fn is_strip(c: char, quotes: bool) -> (r: bool)
    ensures
        r == strips(c, quotes),
{
    if quotes {
        c == '"'
    } else {
        is_ws(c)
    }
}

fn digit(c: char) -> (r: bool)
    ensures
        r == is_digit(c),
{
    let n = c as u32;
    0x30 <= n && n <= 0x39
}

fn skip_forward(cs: &Vec<char>, lo: usize, hi: usize, quotes: bool) -> (r: usize)
    requires
        lo <= hi <= cs@.len(),
    ensures
        r == skip_fwd(cs@, lo as int, hi as int, quotes),
        lo <= r <= hi,
{
    let mut i = lo;
    while i < hi && is_strip(cs[i], quotes)
        invariant
            lo <= i <= hi,
            hi <= cs@.len(),
            skip_fwd(cs@, lo as int, hi as int, quotes) == skip_fwd(cs@, i as int, hi as int, quotes),
        decreases hi - i,
    {
        i += 1;
    }
    i
}

fn skip_backward(cs: &Vec<char>, lo: usize, hi: usize, quotes: bool) -> (r: usize)
    requires
        lo <= hi <= cs@.len(),
    ensures
        r == skip_back(cs@, lo as int, hi as int, quotes),
        lo <= r <= hi,
{
    let mut j = hi;
    while j > lo && is_strip(cs[j - 1], quotes)
        invariant
            lo <= j <= hi,
            hi <= cs@.len(),
            skip_back(cs@, lo as int, hi as int, quotes) == skip_back(cs@, lo as int, j as int, quotes),
        decreases j - lo,
    {
        j -= 1;
    }
    j
}

fn starts_with_at(cs: &Vec<char>, lo: usize, hi: usize, p: &str) -> (r: bool)
    requires
        lo <= hi <= cs@.len(),
    ensures
        r == matches_at(cs@, lo as int, hi as int, p@),
{
    let n = p.unicode_len();
    if n > hi - lo {
        return false;
    }
    let mut k: usize = 0;
    while k < n
        invariant
            n == p@.len(),
            lo + n <= hi <= cs@.len(),
            k <= n,
            forall|m: int| 0 <= m < k ==> #[trigger] cs@[lo + m] == p@[m],
        decreases n - k,
    {
        if cs[lo + k] != p.get_char(k) {
            assert(cs@[lo + k as int] != p@[k as int]);
            return false;
        }
        k += 1;
    }
    true
}

fn word_ieq_at(cs: &Vec<char>, lo: usize, hi: usize, w: &str) -> (r: bool)
    requires
        lo <= hi <= cs@.len(),
    ensures
        r == word_ieq(cs@, lo as int, hi as int, w@),
{
    let n = w.unicode_len();
    if n != hi - lo {
        return false;
    }
    let mut k: usize = 0;
    while k < n
        invariant
            n == w@.len(),
            lo + n == hi <= cs@.len(),
            k <= n,
            forall|m: int| 0 <= m < k ==> ascii_ieq(#[trigger] cs@[lo + m], w@[m]),
        decreases n - k,
    {
        let c = cs[lo + k];
        let l = w.get_char(k);
        if !(c == l || (c as u32 as u64) + 32 == (l as u32 as u64)) {
            assert(!ascii_ieq(cs@[lo + k as int], w@[k as int]));
            return false;
        }
        k += 1;
    }
    true
}

fn exp_position(cs: &Vec<char>, lo: usize, hi: usize) -> (r: usize)
    requires
        lo <= hi <= cs@.len(),
    ensures
        r == exp_pos(cs@, lo as int, hi as int),
        lo <= r <= hi,
{
    let mut i = lo;
    while i < hi && !(cs[i] == 'e' || cs[i] == 'E')
        invariant
            lo <= i <= hi,
            hi <= cs@.len(),
            exp_pos(cs@, lo as int, hi as int) == exp_pos(cs@, i as int, hi as int),
        decreases hi - i,
    {
        i += 1;
    }
    i
}

fn mantissa_at(cs: &Vec<char>, lo: usize, hi: usize) -> (r: bool)
    requires
        lo <= hi <= cs@.len(),
    ensures
        r == mantissa_ok(cs@, lo as int, hi as int),
{
    let ghost s = cs@;
    let mut seen_dot = false;
    let mut seen_digit = false;
    let ghost mut dot: int = 0;
    let ghost mut dig: int = 0;
    let mut k = lo;
    while k < hi
        invariant
            lo <= k <= hi <= s.len(),
            s == cs@,
            forall|m: int| lo <= m < k ==> is_digit(#[trigger] s[m]) || s[m] == '.',
            seen_dot ==> lo <= dot < k && s[dot] == '.',
            forall|m: int| lo <= m < k && #[trigger] s[m] == '.' ==> seen_dot && m == dot,
            seen_digit ==> lo <= dig < k && is_digit(s[dig]),
            !seen_digit ==> forall|m: int| lo <= m < k ==> !is_digit(#[trigger] s[m]),
        decreases hi - k,
    {
        let c = cs[k];
        if digit(c) {
            seen_digit = true;
            proof {
                dig = k as int;
            }
        } else if c == '.' {
            if seen_dot {
                assert(s[dot] == '.' && s[k as int] == '.' && dot != k);
                return false;
            }
            seen_dot = true;
            proof {
                dot = k as int;
            }
        } else {
            assert(!(is_digit(s[k as int]) || s[k as int] == '.'));
            return false;
        }
        k += 1;
    }
    if !seen_digit {
        return false;
    }
    assert(is_digit(s[dig]));
    true
}

fn exponent_at(cs: &Vec<char>, lo: usize, hi: usize) -> (r: bool)
    requires
        lo <= hi <= cs@.len(),
    ensures
        r == exponent_ok(cs@, lo as int, hi as int),
{
    let d = if lo < hi && (cs[lo] == '+' || cs[lo] == '-') {
        lo + 1
    } else {
        lo
    };
    if d >= hi {
        return false;
    }
    let mut k = d;
    while k < hi
        invariant
            d <= k <= hi <= cs@.len(),
            lo <= hi,
            d == (if lo < hi && is_sign(cs@[lo as int]) {
                lo + 1
            } else {
                lo as int
            }),
            forall|m: int| d <= m < k ==> is_digit(#[trigger] cs@[m]),
        decreases hi - k,
    {
        if !digit(cs[k]) {
            assert(!is_digit(cs@[k as int]));
            return false;
        }
        k += 1;
    }
    true
}

fn float_literal_at(cs: &Vec<char>, lo: usize, hi: usize) -> (r: bool)
    requires
        lo <= hi <= cs@.len(),
    ensures
        r == float_literal(cs@, lo as int, hi as int),
{
    let d = if lo < hi && (cs[lo] == '+' || cs[lo] == '-') {
        lo + 1
    } else {
        lo
    };
    if word_ieq_at(cs, d, hi, "inf") || word_ieq_at(cs, d, hi, "infinity") || word_ieq_at(
        cs,
        d,
        hi,
        "nan",
    ) {
        return true;
    }
    let e = exp_position(cs, d, hi);
    if !mantissa_at(cs, d, e) {
        return false;
    }
    if e == hi {
        return true;
    }
    exponent_at(cs, e + 1, hi)
}

proof fn lemma_digits_value_mono(s: Seq<char>, lo: int, k: int, hi: int)
    requires
        lo <= k <= hi,
        forall|m: int| lo <= m < hi ==> is_digit(#[trigger] s[m]),
    ensures
        digits_value(s, lo, k) <= digits_value(s, lo, hi),
    decreases hi - k,
{
    if k < hi {
        lemma_digits_value_mono(s, lo, k, hi - 1);
        assert(is_digit(s[hi - 1]));
    }
}

fn usize_literal_at(cs: &Vec<char>, lo: usize, hi: usize) -> (r: Option<usize>)
    requires
        lo <= hi <= cs@.len(),
    ensures
        r == usize_literal(cs@, lo as int, hi as int),
{
    let ghost s = cs@;
    let d = if lo < hi && cs[lo] == '+' {
        lo + 1
    } else {
        lo
    };
    if d >= hi {
        return None;
    }
    let mut acc: usize = 0;
    let mut k = d;
    while k < hi
        invariant
            d < hi <= s.len(),
            s == cs@,
            lo <= hi,
            d == (if lo < hi && s[lo as int] == '+' {
                lo + 1
            } else {
                lo as int
            }),
            d <= k <= hi,
            forall|m: int| d <= m < k ==> is_digit(#[trigger] s[m]),
            acc == digits_value(s, d as int, k as int),
        decreases hi - k,
    {
        let c = cs[k];
        if !digit(c) {
            assert(!is_digit(s[k as int]));
            assert(!(forall|m: int| d <= m < hi ==> is_digit(#[trigger] s[m])));
            return None;
        }
        let dv = (c as u32 - 0x30) as usize;
        assert(digits_value(s, d as int, k + 1) == acc * 10 + dv);
        match acc.checked_mul(10) {
            Some(m) => match m.checked_add(dv) {
                Some(v) => {
                    acc = v;
                },
                None => {
                    proof {
                        if forall|m: int| d <= m < hi ==> is_digit(#[trigger] s[m]) {
                            lemma_digits_value_mono(s, d as int, k + 1, hi as int);
                        }
                    }
                    return None;
                },
            },
            None => {
                proof {
                    if forall|m: int| d <= m < hi ==> is_digit(#[trigger] s[m]) {
                        lemma_digits_value_mono(s, d as int, k + 1, hi as int);
                    }
                }
                return None;
            },
        }
        k += 1;
    }
    Some(acc)
}

/// Parser of `.claw-dna` files.
pub struct DnaParser;

impl DnaParser {
    /// The configuration described by a DNA file: the default configuration
    /// with each line applied in turn (see `apply_line`).
    pub fn parse(content: &str) -> (r: DnaConfig)
        ensures
            r@ == parse_dna(content@),
    {
        let cs = chars_of(content);
        let n = cs.len();
        let mut config = DnaConfig::default();
        assert(config@.personality.len() == 4);
        let mut start: usize = 0;
        loop
            invariant
                cs@ == content@,
                n == cs@.len(),
                start <= n,
                config.personality@.len() == 4,
                parse_dna(content@) == parse_from(config@, cs@, start as int),
            decreases n - start,
        {
            let mut i = start;
            while i < n && cs[i] != '\n'
                invariant
                    start <= i <= n,
                    n == cs@.len(),
                    line_end(cs@, start as int) == line_end(cs@, i as int),
                decreases n - i,
            {
                i += 1;
            }
            Self::apply_line(&mut config, content, &cs, start, i);
            if i == n {
                return config;
            }
            start = i + 1;
        }
    }

    fn set_trait(config: &mut DnaConfig, index: usize, key: &str, value: String)
        requires
            index < old(config).personality@.len(),
        ensures
            final(config).personality@.len() == old(config).personality@.len(),
            final(config)@ == (DnaConfigView {
                personality: old(config)@.personality.update(index as int, (key@, value@)),
                ..old(config)@
            }),
    {
        config.personality.set(index, (key.to_owned(), value));
        assert(config@.personality =~= old(config)@.personality.update(index as int, (key@, value@)));
    }

    fn apply_line(config: &mut DnaConfig, content: &str, cs: &Vec<char>, lo: usize, hi: usize)
        requires
            cs@ == content@,
            lo <= hi <= cs@.len(),
            old(config).personality@.len() == 4,
        ensures
            final(config).personality@.len() == 4,
            final(config)@ == apply_line(old(config)@, cs@, lo as int, hi as int),
    {
        let a = skip_forward(cs, lo, hi, false);
        let b = skip_backward(cs, a, hi, false);
        if a == b || cs[a] == '#' {
            return ;
        }
        if starts_with_at(cs, a, b, "name = ") {
            let qa = skip_forward(cs, a + "name = ".unicode_len(), b, true);
            let qb = skip_backward(cs, qa, b, true);
            config.name = content.substring_char(qa, qb).to_owned();
        } else if starts_with_at(cs, a, b, "vessel_class = ") {
            let qa = skip_forward(cs, a + "vessel_class = ".unicode_len(), b, true);
            let qb = skip_backward(cs, qa, b, true);
            config.vessel_class = content.substring_char(qa, qb).to_owned();
        } else if starts_with_at(cs, a, b, "verbosity = ") {
            let v = a + "verbosity = ".unicode_len();
            if float_literal_at(cs, v, b) {
                Self::set_trait(config, 0, "verbosity", content.substring_char(v, b).to_owned());
            }
        } else if starts_with_at(cs, a, b, "curiosity = ") {
            let v = a + "curiosity = ".unicode_len();
            if float_literal_at(cs, v, b) {
                Self::set_trait(config, 1, "curiosity", content.substring_char(v, b).to_owned());
            }
        } else if starts_with_at(cs, a, b, "caution = ") {
            let v = a + "caution = ".unicode_len();
            if float_literal_at(cs, v, b) {
                Self::set_trait(config, 2, "caution", content.substring_char(v, b).to_owned());
            }
        } else if starts_with_at(cs, a, b, "cell_agent_count = ") {
            let v = a + "cell_agent_count = ".unicode_len();
            match usize_literal_at(cs, v, b) {
                Some(count) => {
                    config.gpu.cell_agent_count = count;
                },
                None => {},
            }
        }
    }
}

} // verus!
