//! A configuration is valid exactly when it has no problem.
use vstd::prelude::*;

use crate::config::{
    channel_taken, code_taken, each_language_problems, input_schemes, language_ok,
    language_problems, languages_problems, one_source, order_problems, output_problems,
    output_schemes, service_taken, url_ok, Cc608, Config, DegradeStep, Language, Output,
};
use crate::chars::cut;
use crate::lanes::track_of;
use crate::url::{input_of, output_of};

verus! {

proof fn lemma_outputs(outputs: Seq<Output>)
    ensures
        output_problems(outputs).len() == 0 <==> forall|i: int|
            0 <= i < outputs.len() ==> url_ok((#[trigger] outputs[i]).url@, output_schemes()),
    decreases outputs.len(),
{
    if outputs.len() > 0 {
        let init = outputs.drop_last();
        lemma_outputs(init);
        if output_problems(outputs).len() == 0 {
            assert forall|i: int| 0 <= i < outputs.len() implies url_ok(
                (#[trigger] outputs[i]).url@,
                output_schemes(),
            ) by {
                if i < init.len() {
                    assert(init[i] == outputs[i]);
                }
            }
        }
        if forall|i: int|
            0 <= i < outputs.len() ==> url_ok((#[trigger] outputs[i]).url@, output_schemes()) {
            assert forall|i: int| 0 <= i < init.len() implies url_ok(
                (#[trigger] init[i]).url@,
                output_schemes(),
            ) by {
                assert(init[i] == outputs[i]);
            }
            assert(url_ok(outputs[outputs.len() - 1].url@, output_schemes()));
        }
    }
}

proof fn lemma_language(list: Seq<Language>, i: int)
    requires
        0 <= i < list.len(),
    ensures
        language_problems(list.take(i), list[i]).len() == 0 <==> language_ok(list, list[i], i),
{
    let before = list.take(i);
    let l = list[i];
    if language_problems(before, l).len() == 0 {
        assert forall|j: int| 0 <= j < i implies {
            &&& (#[trigger] list[j]).code@ != l.code@
            &&& l.cc608 is Some ==> list[j].cc608 != l.cc608
            &&& l.cea708_service is Some ==> list[j].cea708_service != l.cea708_service
        } by {
            assert(before[j] == list[j]);
            assert(!code_taken(before, l.code@));
            assert(l.cc608 is Some ==> !channel_taken(before, l.cc608->0));
            assert(l.cea708_service is Some ==> !service_taken(before, l.cea708_service->0));
        }
    }
    if language_ok(list, l, i) {
        assert forall|j: int| 0 <= j < i implies #[trigger] before[j] == list[j] by {}
        assert(!code_taken(before, l.code@));
        assert(l.cc608 is Some ==> !channel_taken(before, l.cc608->0));
        assert(l.cea708_service is Some ==> !service_taken(before, l.cea708_service->0));
    }
}

proof fn lemma_languages(list: Seq<Language>, n: int)
    requires
        0 <= n <= list.len(),
    ensures
        each_language_problems(list.take(n)).len() == 0 <==> forall|i: int|
            0 <= i < n ==> language_ok(list, #[trigger] list[i], i),
    decreases n,
{
    if n > 0 {
        lemma_languages(list, n - 1);
        lemma_language(list, n - 1);
        assert(list.take(n).drop_last() =~= list.take(n - 1));
        assert(list.take(n).last() == list[n - 1]);
    }
}

proof fn lemma_order(order: Seq<DegradeStep>)
    ensures
        order_problems(order).len() == 0 <==> forall|i: int, j: int|
            0 <= i < j < order.len() ==> order[i] != order[j],
    decreases order.len(),
{
    if order.len() > 0 {
        let init = order.drop_last();
        let n = init.len() as int;
        lemma_order(init);
        if order_problems(order).len() == 0 {
            assert forall|i: int, j: int| 0 <= i < j < order.len() implies order[i] != order[j] by {
                assert(init[i] == order[i]);
                if j < n {
                    assert(init[j] == order[j]);
                } else {
                    assert(!init.contains(order.last()));
                }
            }
        }
        if forall|i: int, j: int| 0 <= i < j < order.len() ==> order[i] != order[j] {
            assert forall|i: int, j: int| 0 <= i < j < init.len() implies init[i] != init[j] by {
                assert(init[i] == order[i]);
                assert(init[j] == order[j]);
            }
            assert forall|i: int| 0 <= i < n implies #[trigger] init[i] != order.last() by {
                assert(order[i] != order[n]);
            }
        }
    }
}

/// Validation reports no problem exactly for the valid configurations.
pub proof fn law_no_problems_means_valid(config: Config)
    ensures
        config.problems().len() == 0 <==> config.valid(),
{
    let list = config.languages@;
    lemma_outputs(config.outputs@);
    lemma_languages(list, list.len() as int);
    assert(list.take(list.len() as int) =~= list);
    lemma_order(config.degrade.order@);
    assert(languages_problems(list).len() == 0 <==> {
        &&& one_source(list)
        &&& forall|i: int| 0 <= i < list.len() ==> language_ok(list, #[trigger] list[i], i)
    });
}

/// A configuration without problems can be run: its input and outputs are of
/// kinds that there are, one language is spoken and every other one translated
/// into, no two languages share a code, a channel or a service, and every language
/// on CC1, CC3 or a service gets a track.
pub proof fn law_valid_configurations_can_run(config: Config, i: int, j: int)
    requires
        config.problems().len() == 0,
        0 <= i < config.languages@.len(),
        0 <= j < config.languages@.len(),
        i != j,
    ensures
        input_of(config.input.url@) is Some,
        config.outputs@.len() > 0,
        forall|k: int|
            0 <= k < config.outputs@.len() ==> output_of(
                (#[trigger] config.outputs@[k]).url@,
            ) is Some,
        ({
            let a = config.languages@[i];
            let b = config.languages@[j];
            &&& a.code@ != b.code@
            &&& a.code@.len() == 2 && 'a' <= a.code@[0] <= 'z' && 'a' <= a.code@[1] <= 'z'
            &&& !(a.source && b.source)
            &&& a.cc608 is Some ==> a.cc608 != b.cc608
            &&& a.cea708_service is Some ==> a.cea708_service != b.cea708_service
            &&& a.cea708_service is Some ==> 1 <= a.cea708_service->0 <= 6
            &&& a.cc608 != Some(Cc608::Cc2) && a.cc608 != Some(Cc608::Cc4) ==> track_of(
                a,
                config.captions,
            ) is Ok
            &&& a.cc608 is Some ==> config.captions.max_chars_per_line <= 32
        }),
        exists|k: int| 0 <= k < config.languages@.len() && #[trigger] config.languages@[k].source,
{
    law_no_problems_means_valid(config);
    let list = config.languages@;
    assert(language_ok(list, list[i], i));
    assert(language_ok(list, list[j], j));
    if i < j {
        assert(list[i].code@ != list[j].code@);
    } else {
        assert(list[j].code@ != list[i].code@);
    }
    lemma_known_input(config.input.url@);
    assert forall|k: int| 0 <= k < config.outputs@.len() implies output_of(
        (#[trigger] config.outputs@[k]).url@,
    ) is Some by {
        lemma_known_output(config.outputs@[k].url@);
    }
}

proof fn lemma_known_input(url: Seq<char>)
    requires
        url_ok(url, input_schemes()),
    ensures
        input_of(url) is Some,
{
    let list = input_schemes();
    let p = cut(url, "://"@)->0;
    let k = choose|k: int| 0 <= k < list.len() && list[k] == p.0;
    assert(k == 0 || k == 1 || k == 2);
}

proof fn lemma_known_output(url: Seq<char>)
    requires
        url_ok(url, output_schemes()),
    ensures
        output_of(url) is Some,
{
    let list = output_schemes();
    let p = cut(url, "://"@)->0;
    let k = choose|k: int| 0 <= k < list.len() && list[k] == p.0;
    assert(k == 0 || k == 1 || k == 2 || k == 3);
}

/// The limits of a configuration without problems.
pub proof fn law_settings_keep_their_limits(config: Config)
    requires
        config.problems().len() == 0,
    ensures
        0 <= config.video.delay_ms <= 10_000,
        -5_000 <= config.captions.offset_ms <= 5_000,
        1 <= config.captions.rows <= 4,
        20 <= config.captions.max_chars_per_line <= 42,
        1_000 <= config.captions.clear_after_ms <= 30_000,
        160 <= config.asr.chunk_ms <= 3_000,
        1 <= config.asr.stability_passes <= 3,
        200 <= config.translate.max_wait_ms <= 3_000,
        20 <= config.srt.latency_ms <= 8_000,
        1 <= config.web.port,
        1_000 <= config.degrade.max_lag_ms <= 30_000,
{
    law_no_problems_means_valid(config);
}

} // verus!
