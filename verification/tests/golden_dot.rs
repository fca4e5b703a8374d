use graphrite_core::parser::Parser;
use graphrite_core::render::render_dot;

fn assert_dot_contains(src: &str, needles: &[&str]) {
    let doc = Parser::parse(src).expect("parse");
    let out = render_dot(&doc);
    for n in needles {
        assert!(out.contains(n), "missing: {}", n);
    }
}

const BLUESKY_SAMPLE: &str = "%% Diagram: Bluesky architecture\n\
direction LR\n\
\n\
user_app[\"Mobile/Web Client\"]\n\
pds_api[\"Personal Data Server\"]\n\
relay[\"Relay\"]\n\
app_view[\"App View\"]\n\
feed_gen[\"Feed Generator\"]\n\
labeler[\"Labeler\"]\n\
\n\
user_app --> pds_api\n\
pds_api --> relay\n\
relay --> app_view\n\
relay --> feed_gen\n\
relay -.-> labeler\n\
feed_gen --> app_view\n\
labeler -.-> app_view\n\
app_view --> user_app\n";

#[test]
fn bluesky_golden_dot_stable() {
    assert_dot_contains(
        BLUESKY_SAMPLE,
        &[
            "digraph G",
            "user_app [label=\"Mobile/Web Client\"];",
            "user_app -> pds_api;",
        ],
    );
}

const SIMPLE_FLOW: &str = "%% Diagram: Simple flow\n\
direction LR\n\
\n\
start[\"Start\"]\n\
validate[\"Validate Input\"]\n\
queue[\"Queue\"]\n\
worker1[\"Worker 1\"]\n\
worker2[\"Worker 2\"]\n\
process[\"Process\"]\n\
store[\"Store\"]\n\
notify[\"Notify\"]\n\
archive[\"Archive\"]\n\
metrics[\"Metrics\"]\n\
end_success[\"Success\"]\n\
end_fail[\"Fail\"]\n\
\n\
start --> validate\n\
queue --> worker1\n\
queue --> worker2\n\
worker1 --> process\n\
worker2 --> process\n\
process --> store\n\
process --> notify\n\
store --> archive\n\
store --> metrics\n\
notify --> end_success\n\
archive --> end_success\n\
validate --> end_fail\n";

#[test]
fn simple_flow_golden_dot() {
    assert_dot_contains(
        SIMPLE_FLOW,
        &[
            "start [label=\"Start\"];",
            "validate [label=\"Validate Input\"];",
            "queue [label=\"Queue\"];",
            "worker1 [label=\"Worker 1\"];",
            "worker2 [label=\"Worker 2\"];",
            "process [label=\"Process\"];",
            "store [label=\"Store\"];",
            "notify [label=\"Notify\"];",
            "archive [label=\"Archive\"];",
            "metrics [label=\"Metrics\"];",
            "end_success [label=\"Success\"];",
            "end_fail [label=\"Fail\"];",
            "start -> validate;",
            "queue -> worker1;",
            "queue -> worker2;",
            "worker1 -> process;",
            "worker2 -> process;",
            "process -> store;",
            "process -> notify;",
            "store -> archive;",
            "store -> metrics;",
            "notify -> end_success;",
            "archive -> end_success;",
            "validate -> end_fail;",
        ],
    );
}

const VERY_PARALLEL: &str = "%% Diagram: Very parallel\n\
direction LR\n\
\n\
ingest[\"Ingest\"]\n\
precheck[\"Precheck\"]\n\
router[\"Router\"]\n\
proc_a[\"Proc A\"]\n\
proc_b[\"Proc B\"]\n\
proc_c[\"Proc C\"]\n\
proc_d[\"Proc D\"]\n\
proc_e[\"Proc E\"]\n\
proc_f[\"Proc F\"]\n\
merge1[\"Merge 1\"]\n\
merge2[\"Merge 2\"]\n\
finalize[\"Finalize\"]\n\
out[\"Out\"]\n\
\n\
ingest --> precheck\n\
precheck --> router\n\
router --> proc_a\n\
router --> proc_b\n\
router --> proc_c\n\
router --> proc_d\n\
router --> proc_e\n\
router --> proc_f\n\
proc_a --> merge1\n\
proc_b --> merge1\n\
proc_c --> merge1\n\
proc_d --> merge2\n\
proc_e --> merge2\n\
proc_f --> merge2\n\
merge1 --> finalize\n\
merge2 --> finalize\n\
finalize --> out\n";

#[test]
fn very_parallel_golden_dot() {
    assert_dot_contains(
        VERY_PARALLEL,
        &[
            "ingest [label=\"Ingest\"];",
            "precheck [label=\"Precheck\"];",
            "router [label=\"Router\"];",
            "proc_a [label=\"Proc A\"];",
            "proc_b [label=\"Proc B\"];",
            "proc_c [label=\"Proc C\"];",
            "proc_d [label=\"Proc D\"];",
            "proc_e [label=\"Proc E\"];",
            "proc_f [label=\"Proc F\"];",
            "merge1 [label=\"Merge 1\"];",
            "merge2 [label=\"Merge 2\"];",
            "finalize [label=\"Finalize\"];",
            "out [label=\"Out\"];",
            "ingest -> precheck;",
            "precheck -> router;",
            "router -> proc_a;",
            "router -> proc_b;",
            "router -> proc_c;",
            "router -> proc_d;",
            "router -> proc_e;",
            "router -> proc_f;",
            "proc_a -> merge1;",
            "proc_b -> merge1;",
            "proc_c -> merge1;",
            "proc_d -> merge2;",
            "proc_e -> merge2;",
            "proc_f -> merge2;",
            "merge1 -> finalize;",
            "merge2 -> finalize;",
            "finalize -> out;",
        ],
    );
}

const MAINTENANCE_LOOP: &str = "%% Diagram: Maintenance loop\n\
direction LR\n\
\n\
monitor[\"Monitor\"]\n\
alert[\"Alert\"]\n\
classify[\"Classify\"]\n\
triage[\"Triage\"]\n\
assign[\"Assign\"]\n\
fix[\"Fix\"]\n\
review[\"Review\"]\n\
verify[\"Verify\"]\n\
release[\"Release\"]\n\
postmortem[\"Postmortem\"]\n\
backlog[\"Backlog\"]\n\
\n\
monitor --> alert\n\
alert --> classify\n\
classify --> triage\n\
triage --> assign\n\
assign --> fix\n\
fix --> review\n\
review --> verify\n\
verify --> release\n\
release --> postmortem\n\
postmortem --> backlog\n\
backlog --> monitor\n";

#[test]
fn maintenance_loop_golden_dot() {
    assert_dot_contains(
        MAINTENANCE_LOOP,
        &[
            "monitor [label=\"Monitor\"];",
            "alert [label=\"Alert\"];",
            "classify [label=\"Classify\"];",
            "triage [label=\"Triage\"];",
            "assign [label=\"Assign\"];",
            "fix [label=\"Fix\"];",
            "review [label=\"Review\"];",
            "verify [label=\"Verify\"];",
            "release [label=\"Release\"];",
            "postmortem [label=\"Postmortem\"];",
            "backlog [label=\"Backlog\"];",
            "monitor -> alert;",
            "alert -> classify;",
            "classify -> triage;",
            "triage -> assign;",
            "assign -> fix;",
            "fix -> review;",
            "review -> verify;",
            "verify -> release;",
            "release -> postmortem;",
            "postmortem -> backlog;",
            "backlog -> monitor;",
        ],
    );
}

const THOUGHT_PATTERN: &str = "%% Diagram: Thought pattern\n\
direction LR\n\
\n\
observe[\"Observe\"]\n\
collect[\"Collect Data\"]\n\
orient[\"Orient\"]\n\
hypothesize[\"Hypothesize\"]\n\
decide[\"Decide\"]\n\
plan[\"Plan\"]\n\
act[\"Act\"]\n\
reflect[\"Reflect\"]\n\
improve[\"Improve\"]\n\
repeat[\"Repeat\"]\n\
\n\
observe --> collect\n\
collect --> orient\n\
orient --> hypothesize\n\
hypothesize --> decide\n\
decide --> plan\n\
plan --> act\n\
act --> reflect\n\
reflect --> improve\n\
improve --> repeat\n\
repeat --> observe\n";

#[test]
fn thought_pattern_golden_dot() {
    assert_dot_contains(
        THOUGHT_PATTERN,
        &[
            "observe [label=\"Observe\"];",
            "collect [label=\"Collect Data\"];",
            "orient [label=\"Orient\"];",
            "hypothesize [label=\"Hypothesize\"];",
            "decide [label=\"Decide\"];",
            "plan [label=\"Plan\"];",
            "act [label=\"Act\"];",
            "reflect [label=\"Reflect\"];",
            "improve [label=\"Improve\"];",
            "repeat [label=\"Repeat\"];",
            "observe -> collect;",
            "collect -> orient;",
            "orient -> hypothesize;",
            "hypothesize -> decide;",
            "decide -> plan;",
            "plan -> act;",
            "act -> reflect;",
            "reflect -> improve;",
            "improve -> repeat;",
            "repeat -> observe;",
        ],
    );
}

const US_HIGHWAY_SYSTEM: &str = "%% Diagram: US highway system\n\
direction LR\n\
\n\
nyc[\"New York\"]\n\
bos[\"Boston\"]\n\
phl[\"Philadelphia\"]\n\
dc[\"Washington DC\"]\n\
chi[\"Chicago\"]\n\
den[\"Denver\"]\n\
phx[\"Phoenix\"]\n\
la[\"Los Angeles\"]\n\
sd[\"San Diego\"]\n\
sf[\"San Francisco\"]\n\
sea[\"Seattle\"]\n\
por[\"Portland\"]\n\
slt[\"Salt Lake City\"]\n\
atl[\"Atlanta\"]\n\
mia[\"Miami\"]\n\
no[\"New Orleans\"]\n\
hou[\"Houston\"]\n\
dal[\"Dallas\"]\n\
sa[\"San Antonio\"]\n\
\n\
nyc --> bos\n\
nyc --> phl\n\
phl --> dc\n\
nyc --> chi\n\
dc --> atl\n\
chi --> den\n\
den --> slt\n\
slt --> sf\n\
sf --> la\n\
la --> sd\n\
sea --> por\n\
por --> sf\n\
atl --> mia\n\
atl --> no\n\
no --> hou\n\
hou --> dal\n\
dal --> sa\n\
sa --> phx\n\
phx --> la\n";

#[test]
fn us_highway_system_golden_dot() {
    assert_dot_contains(
        US_HIGHWAY_SYSTEM,
        &[
            "nyc [label=\"New York\"];",
            "bos [label=\"Boston\"];",
            "phl [label=\"Philadelphia\"];",
            "dc [label=\"Washington DC\"];",
            "chi [label=\"Chicago\"];",
            "den [label=\"Denver\"];",
            "phx [label=\"Phoenix\"];",
            "la [label=\"Los Angeles\"];",
            "sd [label=\"San Diego\"];",
            "sf [label=\"San Francisco\"];",
            "sea [label=\"Seattle\"];",
            "por [label=\"Portland\"];",
            "slt [label=\"Salt Lake City\"];",
            "atl [label=\"Atlanta\"];",
            "mia [label=\"Miami\"];",
            "no [label=\"New Orleans\"];",
            "hou [label=\"Houston\"];",
            "dal [label=\"Dallas\"];",
            "sa [label=\"San Antonio\"];",
            "nyc -> bos;",
            "nyc -> phl;",
            "phl -> dc;",
            "nyc -> chi;",
            "dc -> atl;",
            "chi -> den;",
            "den -> slt;",
            "slt -> sf;",
            "sf -> la;",
            "la -> sd;",
            "sea -> por;",
            "por -> sf;",
            "atl -> mia;",
            "atl -> no;",
            "no -> hou;",
            "hou -> dal;",
            "dal -> sa;",
            "sa -> phx;",
            "phx -> la;",
        ],
    );
}
