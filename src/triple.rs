use vstd::prelude::*;

verus! {

/// Whether the string names a target in cfg-expr's table of builtin targets.
pub uninterp spec fn builtin_known(triple: Seq<char>) -> bool;

/// Whether target-lexicon's grammar accepts the string as a triple.
pub uninterp spec fn lexicon_known(triple: Seq<char>) -> bool;

/// What cfg-expr makes of the cfg text `key = "value"` on the builtin target named by
/// `triple`: whether the target satisfies it, or `None` when there is no such target
/// or the text is not one target predicate.
pub uninterp spec fn builtin_leaf(triple: Seq<char>, key: Seq<char>, value: Seq<char>) -> Option<bool>;

/// What cfg-expr makes of the cfg text `key = "value"` on the target-lexicon triple
/// parsed from `triple`: whether the triple satisfies it, or `None` when the string
/// does not parse or the text is not one target predicate.
pub uninterp spec fn lexicon_leaf(triple: Seq<char>, key: Seq<char>, value: Seq<char>) -> Option<bool>;

/// Relies on cfg_expr::targets::get_builtin_target_by_triple: a lookup that depends
/// on the string alone.
#[verifier::external_body]
fn lookup_builtin(triple: &str) -> (r: bool)
    ensures
        r == builtin_known(triple@),
{
    cfg_expr::targets::get_builtin_target_by_triple(triple).is_some()
}

/// Relies on `str::parse::<target_lexicon::Triple>`: whether the grammar accepts the
/// string depends on the string alone; on a refusal, the grammar's error as text.
#[verifier::external_body]
fn parse_lexicon(triple: &str) -> (r: Result<(), String>)
    ensures
        r is Ok == lexicon_known(triple@),
{
    triple.parse::<cfg_expr::target_lexicon::Triple>().map(|_| ()).map_err(|e| e.to_string())
}

/// Relies on cfg_expr::Expression::parse, `Expression::eval` over `Option<bool>`, and
/// cfg-expr's `TargetMatcher` for `TargetInfo`: the outcome depends on the arguments alone.
#[verifier::external_body]
fn builtin_matches(triple: &str, key: &str, value: &str) -> (r: Option<bool>)
    ensures
        r == builtin_leaf(triple@, key@, value@),
{
    let text = format!("{} = \"{}\"", key, value);
    match (cfg_expr::targets::get_builtin_target_by_triple(triple), cfg_expr::Expression::parse(&text)) {
        (Some(info), Ok(expr)) => expr.eval(|p| match p {
            cfg_expr::Predicate::Target(tp) => Some(cfg_expr::expr::TargetMatcher::matches(info, tp)),
            _ => None,
        }),
        _ => None,
    }
}

/// Relies on cfg_expr::Expression::parse, `Expression::eval` over `Option<bool>`, and
/// cfg-expr's `TargetMatcher` for `target_lexicon::Triple`: the outcome depends on the
/// arguments alone.
#[verifier::external_body]
fn lexicon_matches(triple: &str, key: &str, value: &str) -> (r: Option<bool>)
    ensures
        r == lexicon_leaf(triple@, key@, value@),
{
    let text = format!("{} = \"{}\"", key, value);
    match (triple.parse::<cfg_expr::target_lexicon::Triple>(), cfg_expr::Expression::parse(&text)) {
        (Ok(lex), Ok(expr)) => expr.eval(|p| match p {
            cfg_expr::Predicate::Target(tp) => Some(cfg_expr::expr::TargetMatcher::matches(&lex, tp)),
            _ => None,
        }),
        _ => None,
    }
}

/// Whether a key names a target attribute: `panic` or one of the `target_` keys other
/// than `target_feature`.
pub open spec fn target_key(k: Seq<char>) -> bool {
    ||| k == "target_abi"@
    ||| k == "target_arch"@
    ||| k == "target_os"@
    ||| k == "target_family"@
    ||| k == "target_env"@
    ||| k == "target_endian"@
    ||| k == "target_has_atomic"@
    ||| k == "target_pointer_width"@
    ||| k == "target_vendor"@
    ||| k == "panic"@
}

fn same_str(s: &str, lit: &str) -> (r: bool)
    ensures
        r == (s@ == lit@),
{
    s.to_owned() == lit.to_owned()
}

fn is_target_key(k: &str) -> (r: bool)
    ensures
        r == target_key(k@),
{
    same_str(k, "target_abi") || same_str(k, "target_arch") || same_str(k, "target_os")
        || same_str(k, "target_family") || same_str(k, "target_env") || same_str(k, "target_endian")
        || same_str(k, "target_has_atomic") || same_str(k, "target_pointer_width")
        || same_str(k, "target_vendor") || same_str(k, "panic")
}

/// How a triple was recognised: from the table of builtin targets, or by the
/// general grammar.
#[derive(Clone, Copy, Debug, PartialEq, Eq, Structural)]
pub enum TripleKind {
    Builtin,
    Lexicon,
}

/// A single target, identified by its canonical string.
#[derive(Clone, Debug)]
pub struct Triple {
    triple_str: String,
    kind: TripleKind,
}

/// A string that neither the builtin table nor the triple grammar accepts, with the
/// grammar's reason.
#[derive(Clone, Debug)]
pub struct TripleParseError {
    pub triple_str: String,
    pub reason: String,
}

/// A character that may stand in a cfg key: an ASCII letter, digit or underscore.
pub open spec fn ident_byte(b: u8) -> bool {
    (97 <= b <= 122) || (65 <= b <= 90) || (48 <= b <= 57) || b == 95
}

/// A character that may stand in a cfg string value: printable ASCII but `"` and `\`.
pub open spec fn value_byte(b: u8) -> bool {
    32 <= b <= 126 && b != 34 && b != 92
}

/// A key that is a single cfg identifier.
pub open spec fn plain_key(s: Seq<char>) -> bool {
    &&& s.len() > 0
    &&& vstd::utf8::is_ascii_chars(s)
    &&& forall|i: int| 0 <= i < s.len() ==> ident_byte(#[trigger] s[i] as u8)
}

/// A value that stands inside one cfg string literal.
pub open spec fn plain_value(s: Seq<char>) -> bool {
    &&& vstd::utf8::is_ascii_chars(s)
    &&& forall|i: int| 0 <= i < s.len() ==> value_byte(#[trigger] s[i] as u8)
}

/// Whether every character of an ASCII string passes `value_byte`, or `ident_byte`
/// (and the string is not empty) when `key` is set.
fn is_plain(s: &str, key: bool) -> (r: bool)
    ensures
        r == if key { plain_key(s@) } else { plain_value(s@) },
{
    if !s.is_ascii() {
        return false;
    }
    proof {
        vstd::string::is_ascii_spec_bytes(s);
    }
    let b = s.as_bytes();
    if key && b.len() == 0 {
        return false;
    }
    let mut i: usize = 0;
    while i < b.len()
        invariant
            b@ == Seq::new(s@.len(), |j: int| s@[j] as u8),
            i <= b@.len(),
            forall|j: int| 0 <= j < i ==> if key { ident_byte(#[trigger] s@[j] as u8) } else { value_byte(s@[j] as u8) },
        decreases b@.len() - i,
    {
        let c = b[i];
        let ok = if key {
            (97 <= c && c <= 122) || (65 <= c && c <= 90) || (48 <= c && c <= 57) || c == 95
        } else {
            32 <= c && c <= 126 && c != 34 && c != 92
        };
        if !ok {
            assert(c == s@[i as int] as u8);
            return false;
        }
        i = i + 1;
    }
    true
}

/// The representation that parsing `s` yields, if any: the builtin table first.
pub open spec fn parsed_kind(s: Seq<char>) -> Option<TripleKind> {
    if builtin_known(s) {
        Some(TripleKind::Builtin)
    } else if lexicon_known(s) {
        Some(TripleKind::Lexicon)
    } else {
        None
    }
}

/// Whether a target of the given representation and string satisfies `key = "value"`:
/// false where cfg-expr reads no target predicate there.
pub open spec fn leaf_holds(kind: TripleKind, s: Seq<char>, key: Seq<char>, value: Seq<char>) -> bool {
    match kind {
        TripleKind::Builtin => builtin_leaf(s, key, value) == Some(true),
        TripleKind::Lexicon => lexicon_leaf(s, key, value) == Some(true),
    }
}

/// Whether a target satisfies `key = "value"`: the key must name a target attribute,
/// and key and value must be plain; any other attribute evaluates to false.
pub open spec fn attr_holds(kind: TripleKind, s: Seq<char>, key: Seq<char>, value: Seq<char>) -> bool {
    plain_key(key) && plain_value(value) && target_key(key) && leaf_holds(kind, s, key, value)
}

impl Triple {
    /// The canonical string: equality and order of triples are those of this string.
    pub closed spec fn view(&self) -> Seq<char> {
        self.triple_str@
    }

    pub closed spec fn kind_spec(&self) -> TripleKind {
        self.kind
    }

    /// A triple holds the representation that parsing its string yields.
    pub open spec fn wf(&self) -> bool {
        parsed_kind(self@) == Some(self.kind_spec())
    }

    fn from_checked(triple_str: String) -> (r: Result<Triple, TripleParseError>)
        ensures
            parsed_kind(triple_str@) is None <==> r is Err,
            r matches Ok(t) ==> t@ == triple_str@ && Some(t.kind_spec()) == parsed_kind(triple_str@),
            r matches Err(e) ==> e.triple_str@ == triple_str@,
    {
        if lookup_builtin(triple_str.as_str()) {
            return Ok(Triple { triple_str, kind: TripleKind::Builtin });
        }
        match parse_lexicon(triple_str.as_str()) {
            Ok(()) => Ok(Triple { triple_str, kind: TripleKind::Lexicon }),
            Err(reason) => Err(TripleParseError { triple_str, reason }),
        }
    }

    /// Parses a triple: the builtin table first, the general grammar next.
    pub fn new(triple_str: String) -> (r: Result<Triple, TripleParseError>)
        ensures
            parsed_kind(triple_str@) is None <==> r is Err,
            r matches Ok(t) ==> t@ == triple_str@ && Some(t.kind_spec()) == parsed_kind(triple_str@),
            r matches Err(e) ==> e.triple_str@ == triple_str@,
    {
        Triple::from_checked(triple_str)
    }

    /// Parses a borrowed triple string, as `new` does.
    pub fn from_str(triple_str: &str) -> (r: Result<Triple, TripleParseError>)
        ensures
            parsed_kind(triple_str@) is None <==> r is Err,
            r matches Ok(t) ==> t@ == triple_str@ && Some(t.kind_spec()) == parsed_kind(triple_str@),
            r matches Err(e) ==> e.triple_str@ == triple_str@,
    {
        Triple::from_checked(triple_str.to_owned())
    }

    /// The canonical string of this triple.
    pub fn as_str(&self) -> (r: &str)
        ensures
            r@ == self@,
    {
        self.triple_str.as_str()
    }

    /// Whether this triple came from the table of builtin targets.
    pub fn is_builtin(&self) -> (r: bool)
        ensures
            r == (self.kind_spec() == TripleKind::Builtin),
    {
        self.kind == TripleKind::Builtin
    }

    /// Two triples are the same target exactly when their canonical strings agree.
    pub fn same_as(&self, other: &Triple) -> (r: bool)
        ensures
            r == (self@ == other@),
    {
        self.triple_str == other.triple_str
    }

    /// Compares this triple with the one the platform is based on, ignoring target features.
    pub fn eval(&self, platform: &Platform) -> (r: bool)
        ensures
            r == (self@ == platform.triple@),
    {
        self.same_as(&platform.triple)
    }

    /// Whether this target satisfies the predicate `key = "value"`. A key that names no
    /// target attribute gives false, and so do a key or value that would not stay one
    /// cfg identifier or one cfg string literal.
    pub fn matches(&self, key: &str, value: &str) -> (r: bool)
        ensures
            r == attr_holds(self.kind_spec(), self@, key@, value@),
            !target_key(key@) ==> !r,
    {
        if !is_plain(key, true) || !is_plain(value, false) || !is_target_key(key) {
            return false;
        }
        let found = match self.kind {
            TripleKind::Builtin => builtin_matches(self.triple_str.as_str(), key, value),
            TripleKind::Lexicon => lexicon_matches(self.triple_str.as_str(), key, value),
        };
        match found {
            Some(b) => b,
            None => false,
        }
    }
}

/// A target together with the target features enabled on it.
#[derive(Clone, Debug)]
pub struct Platform {
    pub triple: Triple,
    pub target_features: Vec<String>,
}

impl Platform {
    pub fn new(triple: Triple, target_features: Vec<String>) -> (r: Platform)
        ensures
            r.triple == triple,
            r.target_features == target_features,
    {
        Platform { triple, target_features }
    }

    pub fn triple(&self) -> (r: &Triple)
        ensures
            r == &self.triple,
    {
        &self.triple
    }

    /// Whether the named target feature is enabled on this platform.
    pub fn has_feature(&self, name: &String) -> (r: bool)
        ensures
            r == (exists|i: int| 0 <= i < self.target_features@.len() && #[trigger] self.target_features@[i]@ == name@),
    {
        let mut i: usize = 0;
        while i < self.target_features.len()
            invariant
                i <= self.target_features@.len(),
                forall|j: int| 0 <= j < i ==> #[trigger] self.target_features@[j]@ != name@,
            decreases self.target_features@.len() - i,
        {
            if self.target_features[i] == *name {
                return true;
            }
            i = i + 1;
        }
        false
    }

    /// Evaluates a target predicate against this platform.
    pub fn eval_expr(&self, expr: &CfgExpr) -> (r: bool)
        ensures
            r == expr.holds(self),
        decreases expr,
    {
        match expr {
            CfgExpr::Const(b) => *b,
            CfgExpr::Key(k, v) => self.triple.matches(k.as_str(), v.as_str()),
            CfgExpr::Triple(t) => self.triple.triple_str == *t,
            CfgExpr::TargetFeature(name) => self.has_feature(name),
            CfgExpr::Not(e) => !self.eval_expr(e),
            CfgExpr::Any(a, b) => self.eval_expr(a) || self.eval_expr(b),
            CfgExpr::All(a, b) => self.eval_expr(a) && self.eval_expr(b),
        }
    }
}

/// A target predicate: `key = "value"` tests, `target_feature` tests, exact triples, and the
/// boolean combinators. `any()` of nothing is `Const(false)`, `all()` of nothing `Const(true)`.
#[derive(Debug)]
pub enum CfgExpr {
    Const(bool),
    Key(String, String),
    TargetFeature(String),
    /// Holds on exactly the platform whose triple has this canonical string.
    Triple(String),
    Not(Box<CfgExpr>),
    Any(Box<CfgExpr>, Box<CfgExpr>),
    All(Box<CfgExpr>, Box<CfgExpr>),
}

impl CfgExpr {
    /// What the predicate means on a platform.
    pub open spec fn holds(&self, p: &Platform) -> bool
        decreases self,
    {
        match self {
            CfgExpr::Const(b) => *b,
            CfgExpr::Key(k, v) => attr_holds(p.triple.kind_spec(), p.triple@, k@, v@),
            CfgExpr::Triple(t) => p.triple@ == t@,
            CfgExpr::TargetFeature(name) => exists|i: int|
                0 <= i < p.target_features@.len() && #[trigger] p.target_features@[i]@ == name@,
            CfgExpr::Not(e) => !e.holds(p),
            CfgExpr::Any(a, b) => a.holds(p) || b.holds(p),
            CfgExpr::All(a, b) => a.holds(p) && b.holds(p),
        }
    }
}

} // verus!
