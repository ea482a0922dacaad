# trainer

Train and backtest a model that ranks stocks by their forward price excursion.

The library under `src/` is the project's logic, verified with Verus: loading and splitting
price histories, windows and batches, labels, metrics, the training schedule, and a long-only
portfolio simulation. The program under `app/` wraps it with the command line, the data files,
and the neural network.

## Numbers

The library fixes no number format. Prices, scores, and money are values of a type that
implements `number::Number`, floating point as a rule. Contracts name the operations and their
operands, so they hold whatever the format rounds to. Laws that need more of the format name
it as a premise: that operations have one result each, or that they are exact. A format that
implements `number::Narrow` has a wider one beside it, which ranks are averaged in and metrics
are divided in: single beside double precision, as a rule.

## Dates

Dates are day numbers of the Gregorian calendar; 1 January of year 1 is day 1.

## Layout

- `portfolio` - the simulation: pricing, orders, exits, rotation, the day loop, and reports;
  `books`, `balance`, `replay`, and `foresight` hold the laws of a run
- `store`, `history` - per-ticker histories, and their train/valid split
- `dataset`, `batcher`, `dataloader` - windows, batches, and epochs; rows parted by ticker
- `training` - configuration, schedule, and the preparation of a run
- `label`, `metric` - targets and evaluation
- `command`, `cli`, `link`, `report` - what the subcommands compute
- `calendar`, `random` - what is taken from `chrono` and `fastrand`

## Usage

```
trainer train --artifact-dir artifacts/run
trainer backtest
```
