use vstd::prelude::*;

verus! {

/// The three sizes of recognition model.
#[derive(Clone, Copy, Debug, PartialEq, Eq, Structural)]
pub enum OcrModelTier {
    Tiny,
    Small,
    Medium,
}

/// The name of a tier as file names and the cache use it.
pub open spec fn tier_name(t: OcrModelTier) -> Seq<char> {
    match t {
        OcrModelTier::Tiny => "tiny"@,
        OcrModelTier::Small => "small"@,
        OcrModelTier::Medium => "medium"@,
    }
}

/// The tier chosen by position in the list tiny, small, medium; any other position
/// chooses medium.
pub open spec fn tier_at(index: i32) -> OcrModelTier {
    if index == 0 {
        OcrModelTier::Tiny
    } else if index == 1 {
        OcrModelTier::Small
    } else {
        OcrModelTier::Medium
    }
}

/// The detection model file of a tier.
pub open spec fn det_file(t: OcrModelTier) -> Seq<char> {
    "PP-OCRv6_"@ + tier_name(t) + "_det.mnn"@
}

/// The recognition model file of a tier.
pub open spec fn rec_file(t: OcrModelTier) -> Seq<char> {
    "PP-OCRv6_"@ + tier_name(t) + "_rec.mnn"@
}

/// The character set file of a tier.
pub open spec fn charset_file(t: OcrModelTier) -> Seq<char> {
    "ppocr_keys_v6_"@ + tier_name(t) + ".txt"@
}

impl OcrModelTier {
    /// The tier's name: `tiny`, `small` or `medium`.
    pub fn as_str(self) -> (r: &'static str)
        ensures
            r@ == tier_name(self),
    {
        match self {
            OcrModelTier::Tiny => "tiny",
            OcrModelTier::Small => "small",
            OcrModelTier::Medium => "medium",
        }
    }

    /// The tier at a position of the list tiny, small, medium (see `tier_at`).
    pub fn from_index(index: i32) -> (r: OcrModelTier)
        ensures
            r == tier_at(index),
    {
        if index == 0 {
            OcrModelTier::Tiny
        } else if index == 1 {
            OcrModelTier::Small
        } else {
            OcrModelTier::Medium
        }
    }

    /// The file name of the tier's detection model.
    pub fn det_file_name(self) -> (r: String)
        ensures
            r@ == det_file(self),
    {
        let mut s = String::from_str("PP-OCRv6_");
        s.append(self.as_str());
        s.append("_det.mnn");
        s
    }

    /// The file name of the tier's recognition model.
    pub fn rec_file_name(self) -> (r: String)
        ensures
            r@ == rec_file(self),
    {
        let mut s = String::from_str("PP-OCRv6_");
        s.append(self.as_str());
        s.append("_rec.mnn");
        s
    }

    /// The file name of the tier's character set.
    pub fn charset_file_name(self) -> (r: String)
        ensures
            r@ == charset_file(self),
    {
        let mut s = String::from_str("ppocr_keys_v6_");
        s.append(self.as_str());
        s.append(".txt");
        s
    }
}

impl Default for OcrModelTier {
    /// The medium tier.
    fn default() -> (r: OcrModelTier)
        ensures
            r == OcrModelTier::Medium,
    {
        OcrModelTier::Medium
    }
}

/// Reads a tier from its name; any other text is refused with `未知模型档位：` and the text.
pub fn parse_model_tier(value: &str) -> (r: Result<OcrModelTier, String>)
    ensures
        r matches Ok(t) ==> tier_name(t) == value@,
        r is Err ==> value@ != "tiny"@ && value@ != "small"@ && value@ != "medium"@,
        r matches Err(e) ==> e@ == "未知模型档位："@ + value@,
{
    let v = crate::text::chars_of(value);
    let tiny = crate::text::chars_of("tiny");
    let small = crate::text::chars_of("small");
    let medium = crate::text::chars_of("medium");
    if crate::metric::chars_eq(&v, &tiny) {
        Ok(OcrModelTier::Tiny)
    } else if crate::metric::chars_eq(&v, &small) {
        Ok(OcrModelTier::Small)
    } else if crate::metric::chars_eq(&v, &medium) {
        Ok(OcrModelTier::Medium)
    } else {
        let mut e = String::from_str("未知模型档位：");
        e.append(value);
        Err(e)
    }
}

/// Each name reads back as its tier, and tiers have distinct names.
pub proof fn lemma_tier_names(a: OcrModelTier, b: OcrModelTier)
    ensures
        tier_name(a) == tier_name(b) ==> a == b,
{
    reveal_strlit("tiny");
    reveal_strlit("small");
    reveal_strlit("medium");
    if tier_name(a) == tier_name(b) && a != b {
        assert(tier_name(a).len() != tier_name(b).len() || tier_name(a)[0] != tier_name(b)[0]);
    }
}

} // verus!
