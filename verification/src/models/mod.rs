//! Model identities: which checkpoint a GGUF file holds and the names it answers to.
use vstd::prelude::*;
use crate::gguf::{Gguf, GgufV};
use crate::text::{owned, str_eq, views};

pub mod laya;
pub mod openthai;

verus! {

/// A loaded model's identity.
#[derive(Debug)]
pub struct ModelInfo {
    pub name: String,
    pub family: String,
    pub architecture: String,
    pub aliases: Vec<String>,
    pub release_date: &'static str,
}

pub struct ModelInfoV {
    pub name: Seq<char>,
    pub family: Seq<char>,
    pub architecture: Seq<char>,
    pub aliases: Seq<Seq<char>>,
    pub release_date: Seq<char>,
}

impl View for ModelInfo {
    type V = ModelInfoV;

    open spec fn view(&self) -> ModelInfoV {
        ModelInfoV {
            name: self.name@,
            family: self.family@,
            architecture: self.architecture@,
            aliases: views(self.aliases@),
            release_date: self.release_date@,
        }
    }
}

/// The family of a Laya checkpoint by its model name.
pub open spec fn laya_family(name: Seq<char>) -> Option<Seq<char>> {
    if name == "laya"@ {
        Some("english"@)
    } else if name == "laya-multilingual"@ {
        Some("multilingual"@)
    } else if name == "laya-typed-decisions"@ {
        Some("typed-decisions"@)
    } else {
        None
    }
}

/// The identity that the metadata of `g` declares.
pub open spec fn describe_spec(g: GgufV) -> Result<ModelInfoV, Seq<char>> {
    let arch = g.get("general.architecture"@).text();
    if arch == "openthai_systemone"@ {
        Ok(ModelInfoV {
            name: "openthai-systemone"@,
            family: "openthai-systemone"@,
            architecture: arch,
            aliases: Seq::empty(),
            release_date: "2026-09-22"@,
        })
    } else if arch == "ggmlc"@ {
        let name = g.get("laya.model_name"@).text();
        match laya_family(name) {
            Some(family) => Ok(ModelInfoV {
                name,
                family,
                architecture: arch,
                aliases: if family == "english"@ { seq![family, "jev-latest"@] } else { seq![family] },
                release_date: "2026-09-20"@,
            }),
            None => Err("unsupported ggmlc model "@ + name),
        }
    } else {
        Err("unsupported GGUF architecture "@ + arch)
    }
}

/// Reads a model's identity from its metadata, before any weights are loaded.
pub fn describe(g: &Gguf) -> (r: Result<ModelInfo, String>)
    ensures
        match describe_spec(g@) {
            Ok(info) => r matches Ok(m) && m@ == info,
            Err(e) => r matches Err(m) && m@ == e,
        },
{
    let architecture = g.get("general.architecture").str();
    if str_eq(architecture, "openthai_systemone") {
        let m = ModelInfo {
            name: owned("openthai-systemone"),
            family: owned("openthai-systemone"),
            architecture: owned(architecture),
            aliases: Vec::new(),
            release_date: "2026-09-22",
        };
        assert(m@.aliases =~= Seq::<Seq<char>>::empty());
        Ok(m)
    } else if str_eq(architecture, "ggmlc") {
        let name = g.get("laya.model_name").str();
        let family = if str_eq(name, "laya") {
            "english"
        } else if str_eq(name, "laya-multilingual") {
            "multilingual"
        } else if str_eq(name, "laya-typed-decisions") {
            "typed-decisions"
        } else {
            let mut m = owned("unsupported ggmlc model ");
            m.append(name);
            return Err(m);
        };
        let mut aliases: Vec<String> = Vec::new();
        aliases.push(owned(family));
        let english = str_eq(family, "english");
        if english {
            aliases.push(owned("jev-latest"));
        }
        let m = ModelInfo {
            name: owned(name),
            family: owned(family),
            architecture: owned(architecture),
            aliases,
            release_date: "2026-09-20",
        };
        proof {
            let fam = laya_family(name@)->Some_0;
            assert(family@ == fam);
            if english {
                assert(m@.aliases =~= seq![fam, "jev-latest"@]);
            } else {
                assert(m@.aliases =~= seq![fam]);
            }
        }
        Ok(m)
    } else {
        let mut m = owned("unsupported GGUF architecture ");
        m.append(architecture);
        Err(m)
    }
}

} // verus!
