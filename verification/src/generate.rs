//! Ready-made diagrams: minimal scaffolds per kind and architecture templates.

use vstd::prelude::*;
use crate::text::{all_ascii, ascii_lower, chars_of, lowercase, push_chars, str_eq, string_from, to_lowercase};
use crate::ir::{Document, IrError, Kind};

verus! {

/// The kind named by a (lower-cased) word.
pub open spec fn kind_word(w: Seq<char>) -> Option<Kind> {
    if w == "flowchart"@ || w == "graph"@ {
        Some(Kind::Flowchart)
    } else if w == "sequence"@ || w == "sequencediagram"@ {
        Some(Kind::Sequence)
    } else if w == "class"@ || w == "classdiagram"@ {
        Some(Kind::Class)
    } else if w == "gantt"@ {
        Some(Kind::Gantt)
    } else if w == "state"@ || w == "statediagram"@ {
        Some(Kind::State)
    } else if w == "er"@ || w == "erdiagram"@ {
        Some(Kind::Er)
    } else {
        None
    }
}

/// Parse a kind name, case-insensitively.
pub fn parse_kind(s: &str) -> (r: Result<Kind, String>)
    ensures
        match kind_word(lowercase(s@)) {
            Some(k) => r == Ok::<Kind, String>(k),
            None => r matches Err(m) && m@ == "unknown kind '"@ + s@
                + "'; expected flowchart, sequence, class, gantt, state, or er"@,
        },
{
    let low = to_lowercase(s);
    let w = low.as_str();
    if str_eq(w, "flowchart") || str_eq(w, "graph") {
        Ok(Kind::Flowchart)
    } else if str_eq(w, "sequence") || str_eq(w, "sequencediagram") {
        Ok(Kind::Sequence)
    } else if str_eq(w, "class") || str_eq(w, "classdiagram") {
        Ok(Kind::Class)
    } else if str_eq(w, "gantt") {
        Ok(Kind::Gantt)
    } else if str_eq(w, "state") || str_eq(w, "statediagram") {
        Ok(Kind::State)
    } else if str_eq(w, "er") || str_eq(w, "erdiagram") {
        Ok(Kind::Er)
    } else {
        let mut m = string_from("unknown kind '");
        m.append(s);
        m.append("'; expected flowchart, sequence, class, gantt, state, or er");
        Err(m)
    }
}

/// Minimal Mermaid source of each kind.
pub open spec fn scaffold_text(kind: Kind) -> Seq<char> {
    match kind {
        Kind::Flowchart => "graph TD\n    A[Start] --> B[End]\n"@,
        Kind::Sequence => "sequenceDiagram\n    participant A\n    participant B\n    A->>B: Message\n"@,
        Kind::Class => "classDiagram\n    class Example {\n        +field\n        +method()\n    }\n"@,
        Kind::Gantt => "gantt\n    title Project Plan\n    dateFormat YYYY-MM-DD\n    section Phase 1\n    Task :a1, 2024-01-01, 7d\n"@,
        Kind::State => "stateDiagram-v2\n    [*] --> Idle\n    Idle --> [*]\n"@,
        Kind::Er => "erDiagram\n    CUSTOMER ||--o{ ORDER : places\n    CUSTOMER {\n        string name\n        string custNumber PK\n    }\n    ORDER {\n        int orderNumber PK\n    }\n"@,
    }
}

/// Minimal Mermaid scaffold for each diagram kind.
pub fn mermaid_scaffold(kind: Kind) -> (r: &'static str)
    ensures
        r@ == scaffold_text(kind),
{
    match kind {
        Kind::Flowchart => "graph TD\n    A[Start] --> B[End]\n",
        Kind::Sequence => "sequenceDiagram\n    participant A\n    participant B\n    A->>B: Message\n",
        Kind::Class => "classDiagram\n    class Example {\n        +field\n        +method()\n    }\n",
        Kind::Gantt => "gantt\n    title Project Plan\n    dateFormat YYYY-MM-DD\n    section Phase 1\n    Task :a1, 2024-01-01, 7d\n",
        Kind::State => "stateDiagram-v2\n    [*] --> Idle\n    Idle --> [*]\n",
        Kind::Er => "erDiagram\n    CUSTOMER ||--o{ ORDER : places\n    CUSTOMER {\n        string name\n        string custNumber PK\n    }\n    ORDER {\n        int orderNumber PK\n    }\n",
    }
}

/// Minimal PlantUML sequence scaffold.
pub fn plantuml_sequence_scaffold() -> (r: &'static str)
    ensures
        r@ == "@startuml\nparticipant A\nparticipant B\nA -> B: Message\n@enduml\n"@,
{
    "@startuml\nparticipant A\nparticipant B\nA -> B: Message\n@enduml\n"
}

/// Minimal DOT digraph scaffold for flowcharts.
pub fn dot_scaffold() -> (r: &'static str)
    ensures
        r@ == "digraph G {\n    A [label=\"Start\"];\n    B [label=\"End\"];\n    A -> B;\n}\n"@,
{
    "digraph G {\n    A [label=\"Start\"];\n    B [label=\"End\"];\n    A -> B;\n}\n"
}

/// Minimal D2 scaffold for flowcharts.
pub fn d2_scaffold() -> (r: &'static str)
    ensures
        r@ == "direction: down\nstart: Start\nend: End\nstart -> end\n"@,
{
    "direction: down\nstart: Start\nend: End\nstart -> end\n"
}

/// The scaffold of a kind read into a document.
pub fn scaffold_document(kind: Kind) -> (r: Result<Document, IrError>)
    ensures
        crate::formats::mermaid::document_result(scaffold_text(kind), r),
{
    crate::ir::from_mermaid(mermaid_scaffold(kind))
}

/// Architecture diagram templates.
#[derive(Clone, Copy, Debug, PartialEq, Eq, Structural)]
pub enum Template {
    Aws3Tier,
    GcpMicroservices,
    AzureHubSpoke,
}

/// Lower case with `_` and spaces read as `-`.
pub open spec fn template_key(s: Seq<char>) -> Seq<char> {
    lowercase(s).map_values(|c: char| if c == '_' || c == ' ' { '-' } else { c })
}

/// The key of a text made only of ASCII characters.
pub open spec fn ascii_key(s: Seq<char>) -> Seq<char> {
    s.map_values(|c: char| ascii_lower(c)).map_values(|c: char| if c == '_' || c == ' ' { '-' } else { c })
}

/// Every template's name, and each documented alias, reads as that template,
/// in any ASCII letter case and with `_` or a space for `-`.
pub proof fn law_template_names_parse(t: Template)
    ensures
        all_ascii(template_name(t)),
        ascii_key(template_name(t)) == template_name(t),
        template_word(template_name(t)) == Some(t),
        template_word("aws3tier"@) == Some(Template::Aws3Tier),
        template_word("aws-3-tier"@) == Some(Template::Aws3Tier),
        template_word("gcp-microservice"@) == Some(Template::GcpMicroservices),
        template_word("gcp-micro"@) == Some(Template::GcpMicroservices),
        template_word("azure-hubspoke"@) == Some(Template::AzureHubSpoke),
        template_word("azure-hub"@) == Some(Template::AzureHubSpoke),
{
    reveal_strlit("aws-3tier");
    reveal_strlit("aws3tier");
    reveal_strlit("aws-3-tier");
    reveal_strlit("gcp-microservices");
    reveal_strlit("gcp-microservice");
    reveal_strlit("gcp-micro");
    reveal_strlit("azure-hub-spoke");
    reveal_strlit("azure-hubspoke");
    reveal_strlit("azure-hub");
    assert(ascii_key(template_name(t)) =~= template_name(t));
    assert("aws-3tier"@[0] == 'a' && "gcp-microservices"@[0] == 'g' && "azure-hub-spoke"@[0] == 'a');
    assert("azure-hub-spoke"@[1] == 'z' && "aws-3tier"@[1] == 'w');
    assert("aws3tier"@[1] == 'w' && "aws-3-tier"@[1] == 'w');
    assert("azure-hubspoke"@[1] == 'z' && "azure-hub"@[1] == 'z');
    assert("gcp-microservice"@[0] == 'g' && "gcp-micro"@[0] == 'g');
}

pub open spec fn template_word(w: Seq<char>) -> Option<Template> {
    if w == "aws-3tier"@ || w == "aws3tier"@ || w == "aws-3-tier"@ {
        Some(Template::Aws3Tier)
    } else if w == "gcp-microservices"@ || w == "gcp-microservice"@ || w == "gcp-micro"@ {
        Some(Template::GcpMicroservices)
    } else if w == "azure-hub-spoke"@ || w == "azure-hubspoke"@ || w == "azure-hub"@ {
        Some(Template::AzureHubSpoke)
    } else {
        None
    }
}

pub open spec fn template_name(t: Template) -> Seq<char> {
    match t {
        Template::Aws3Tier => "aws-3tier"@,
        Template::GcpMicroservices => "gcp-microservices"@,
        Template::AzureHubSpoke => "azure-hub-spoke"@,
    }
}

pub open spec fn template_text(t: Template) -> Seq<char> {
    match t {
        Template::Aws3Tier => "graph TD\n\
                 subgraph Edge\n\
                     CDN[CloudFront CDN]\n\
                 end\n\
                 subgraph Web\n\
                     ELB[Application Load Balancer]\n\
                     Web1[EC2 Web Server A]\n\
                     Web2[EC2 Web Server B]\n\
                 end\n\
                 subgraph App\n\
                     App1[EC2 App Server A]\n\
                     App2[EC2 App Server B]\n\
                 end\n\
                 subgraph Data\n\
                     RDS[(RDS Primary)]\n\
                     Replica[(RDS Read Replica)]\n\
                 end\n\
                 CDN --> ELB\n\
                 ELB --> Web1\n\
                 ELB --> Web2\n\
                 Web1 --> App1\n\
                 Web2 --> App2\n\
                 App1 --> RDS\n\
                 App2 --> RDS\n\
                 RDS --> Replica\n"@,
        Template::GcpMicroservices => "graph TD\n\
                 subgraph Edge\n\
                     LB[Cloud Load Balancer]\n\
                 end\n\
                 subgraph GKE\n\
                     Gateway[API Gateway]\n\
                     Auth[Auth Service]\n\
                     Orders[Orders Service]\n\
                     Billing[Billing Service]\n\
                 end\n\
                 subgraph Data\n\
                     Sql[(Cloud SQL)]\n\
                     Pubsub[(Pub/Sub)]\n\
                 end\n\
                 LB --> Gateway\n\
                 Gateway --> Auth\n\
                 Gateway --> Orders\n\
                 Gateway --> Billing\n\
                 Orders --> Sql\n\
                 Billing --> Sql\n\
                 Orders --> Pubsub\n\
                 Billing --> Pubsub\n"@,
        Template::AzureHubSpoke => "graph TD\n\
                 subgraph Hub\n\
                     Firewall[Azure Firewall]\n\
                     Vpn[VPN Gateway]\n\
                 end\n\
                 subgraph Spoke1\n\
                     Vm1[Spoke1 VM]\n\
                     Peering1[Spoke1 Peering]\n\
                 end\n\
                 subgraph Spoke2\n\
                     Vm2[Spoke2 VM]\n\
                     Peering2[Spoke2 Peering]\n\
                 end\n\
                 Vpn --> Firewall\n\
                 Firewall --> Peering1\n\
                 Firewall --> Peering2\n\
                 Peering1 --> Vm1\n\
                 Peering2 --> Vm2\n"@,
    }
}

impl Template {
    /// Parse a template id (case-insensitive; `_` and spaces read as `-`).
    pub fn parse(s: &str) -> (r: Result<Template, String>)
        ensures
            all_ascii(s@) ==> template_key(s@) == ascii_key(s@),
            match template_word(template_key(s@)) {
                Some(t) => r == Ok::<Template, String>(t),
                None => r matches Err(m) && m@ == "unknown template '"@ + s@
                    + "'; expected aws-3tier, gcp-microservices, or azure-hub-spoke"@,
            },
    {
        let low = to_lowercase(s);
        proof {
            if all_ascii(s@) {
                assert(template_key(s@) =~= ascii_key(s@));
            }
        }
        let cs = chars_of(low.as_str());
        let mut key = String::new();
        let mut i: usize = 0;
        let ghost f = |c: char| if c == '_' || c == ' ' { '-' } else { c };
        while i < cs.len()
            invariant
                i <= cs@.len(),
                cs@ == lowercase(s@),
                f == (|c: char| if c == '_' || c == ' ' { '-' } else { c }),
                key@ == cs@.take(i as int).map_values(f),
            decreases cs@.len() - i,
        {
            let c = cs[i];
            let d = if c == '_' || c == ' ' { '-' } else { c };
            crate::text::push_char(&mut key, d);
            assert(cs@.take(i + 1).map_values(f) =~= cs@.take(i as int).map_values(f).push(d));
            i = i + 1;
        }
        assert(cs@.take(cs@.len() as int) =~= cs@);
        let w = key.as_str();
        if str_eq(w, "aws-3tier") || str_eq(w, "aws3tier") || str_eq(w, "aws-3-tier") {
            Ok(Template::Aws3Tier)
        } else if str_eq(w, "gcp-microservices") || str_eq(w, "gcp-microservice") || str_eq(w, "gcp-micro") {
            Ok(Template::GcpMicroservices)
        } else if str_eq(w, "azure-hub-spoke") || str_eq(w, "azure-hubspoke") || str_eq(w, "azure-hub") {
            Ok(Template::AzureHubSpoke)
        } else {
            let mut m = string_from("unknown template '");
            m.append(s);
            m.append("'; expected aws-3tier, gcp-microservices, or azure-hub-spoke");
            Err(m)
        }
    }

    pub fn as_str(self) -> (r: &'static str)
        ensures
            r@ == template_name(self),
    {
        match self {
            Template::Aws3Tier => "aws-3tier",
            Template::GcpMicroservices => "gcp-microservices",
            Template::AzureHubSpoke => "azure-hub-spoke",
        }
    }

    pub fn description(self) -> (r: &'static str)
        ensures
            r@ == match self {
                Template::Aws3Tier => "AWS 3-tier web architecture (ELB → EC2 web → EC2 app → RDS)"@,
                Template::GcpMicroservices => "GCP microservices (LB → GKE services → Cloud SQL / Pub/Sub)"@,
                Template::AzureHubSpoke => "Azure hub-spoke network (hub VNet → spoke VNets → peering)"@,
            },
    {
        match self {
            Template::Aws3Tier => "AWS 3-tier web architecture (ELB → EC2 web → EC2 app → RDS)",
            Template::GcpMicroservices => "GCP microservices (LB → GKE services → Cloud SQL / Pub/Sub)",
            Template::AzureHubSpoke => "Azure hub-spoke network (hub VNet → spoke VNets → peering)",
        }
    }

    /// Mermaid flowchart source of the template.
    pub fn mermaid(self) -> (r: &'static str)
        ensures
            r@ == template_text(self),
    {
        match self {
            Template::Aws3Tier => {
                "graph TD\n\
                 subgraph Edge\n\
                     CDN[CloudFront CDN]\n\
                 end\n\
                 subgraph Web\n\
                     ELB[Application Load Balancer]\n\
                     Web1[EC2 Web Server A]\n\
                     Web2[EC2 Web Server B]\n\
                 end\n\
                 subgraph App\n\
                     App1[EC2 App Server A]\n\
                     App2[EC2 App Server B]\n\
                 end\n\
                 subgraph Data\n\
                     RDS[(RDS Primary)]\n\
                     Replica[(RDS Read Replica)]\n\
                 end\n\
                 CDN --> ELB\n\
                 ELB --> Web1\n\
                 ELB --> Web2\n\
                 Web1 --> App1\n\
                 Web2 --> App2\n\
                 App1 --> RDS\n\
                 App2 --> RDS\n\
                 RDS --> Replica\n"
            },
            Template::GcpMicroservices => {
                "graph TD\n\
                 subgraph Edge\n\
                     LB[Cloud Load Balancer]\n\
                 end\n\
                 subgraph GKE\n\
                     Gateway[API Gateway]\n\
                     Auth[Auth Service]\n\
                     Orders[Orders Service]\n\
                     Billing[Billing Service]\n\
                 end\n\
                 subgraph Data\n\
                     Sql[(Cloud SQL)]\n\
                     Pubsub[(Pub/Sub)]\n\
                 end\n\
                 LB --> Gateway\n\
                 Gateway --> Auth\n\
                 Gateway --> Orders\n\
                 Gateway --> Billing\n\
                 Orders --> Sql\n\
                 Billing --> Sql\n\
                 Orders --> Pubsub\n\
                 Billing --> Pubsub\n"
            },
            Template::AzureHubSpoke => {
                "graph TD\n\
                 subgraph Hub\n\
                     Firewall[Azure Firewall]\n\
                     Vpn[VPN Gateway]\n\
                 end\n\
                 subgraph Spoke1\n\
                     Vm1[Spoke1 VM]\n\
                     Peering1[Spoke1 Peering]\n\
                 end\n\
                 subgraph Spoke2\n\
                     Vm2[Spoke2 VM]\n\
                     Peering2[Spoke2 Peering]\n\
                 end\n\
                 Vpn --> Firewall\n\
                 Firewall --> Peering1\n\
                 Firewall --> Peering2\n\
                 Peering1 --> Vm1\n\
                 Peering2 --> Vm2\n"
            },
        }
    }
}

/// All built-in templates, in a stable display order.
pub fn all_templates() -> (r: [Template; 3])
    ensures
        r@ == seq![Template::Aws3Tier, Template::GcpMicroservices, Template::AzureHubSpoke],
{
    [Template::Aws3Tier, Template::GcpMicroservices, Template::AzureHubSpoke]
}

/// A template read into a document.
pub fn template_document(template: Template) -> (r: Result<Document, IrError>)
    ensures
        crate::formats::mermaid::document_result(template_text(template), r),
{
    crate::ir::from_mermaid(template.mermaid())
}

} // verus!
